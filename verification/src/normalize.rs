//! Normalization of a common subsequence on one side of the comparison.
//!
//! Between two runs of shared tokens lies a gap of tokens that only this
//! side has. Where the token before the gap equals the last token of the
//! gap, the gap can move one token to the left and the shared tokens stay
//! the same, token for token. Each gap is moved, among the places it can
//! reach that way, to the one where most of its two borders fall between
//! bytes of different classes.

use vstd::prelude::*;
use crate::snake::{snake_matches, Snake};
use crate::token::{
    classify_byte,
    kind_of,
    span_bytes,
    span_ok,
    tokens_equal,
    tokens_of,
    HashedSpan,
    Tokenization,
};

verus! {

/// The runs as pairs of mathematical integers.
pub open spec fn as_ints(runs: Seq<(usize, usize)>) -> Seq<(int, int)> {
    Seq::new(runs.len(), |i: int| (runs[i].0 as int, runs[i].1 as int))
}

/// The tokens that a snake covers on one side, as first index and end.
pub open spec fn side_run(s: Snake, added: bool) -> (int, int) {
    if added {
        (s.y0 as int, s.y0 + s.length)
    } else {
        (s.x0 as int, s.x0 + s.length)
    }
}

/// The runs of tokens that the snakes cover on one side, where runs that
/// touch are made one.
pub open spec fn merged_runs(snakes: Seq<Snake>, added: bool) -> Seq<(int, int)>
    decreases snakes.len(),
{
    if snakes.len() == 0 {
        Seq::empty()
    } else {
        let front = merged_runs(snakes.drop_last(), added);
        let run = side_run(snakes.last(), added);
        if front.len() > 0 && front.last().1 == run.0 {
            front.update(front.len() - 1, (front.last().0, run.1))
        } else {
            front.push(run)
        }
    }
}

/// No run is empty, all lie among `n` tokens, and between two runs at
/// least one token is left out.
pub open spec fn runs_separated(runs: Seq<(int, int)>, n: int) -> bool {
    &&& forall|i: int| 0 <= i < runs.len() ==> 0 <= (#[trigger] runs[i]).0 < runs[i].1 <= n
    &&& forall|i: int, j: int|
        0 <= i < j < runs.len() ==> (#[trigger] runs[i]).1 < (#[trigger] runs[j]).0
}

/// The snakes are in order on both sides, and none is empty.
pub open spec fn snakes_ordered(snakes: Seq<Snake>, n: int, m: int) -> bool {
    &&& forall|k: int|
        0 <= k < snakes.len() ==> 0 < (#[trigger] snakes[k]).length && snakes[k].x0
            + snakes[k].length <= n && snakes[k].y0 + snakes[k].length <= m
    &&& forall|k: int, l: int|
        0 <= k < l < snakes.len() ==> (#[trigger] snakes[k]).x0 + snakes[k].length <= (
        #[trigger] snakes[l]).x0 && snakes[k].y0 + snakes[k].length <= snakes[l].y0
}

/// Token `i` begins where the class of the bytes changes, or at the start
/// of the data.
pub open spec fn at_boundary(data: Seq<u8>, spans: Seq<HashedSpan>, i: int) -> bool {
    0 <= i < spans.len() && (spans[i].offset == 0 || kind_of(data[spans[i].offset - 1]) != kind_of(
        data[spans[i].offset as int],
    ))
}

/// How many of the two borders of the gap of `w` tokens from token `g` on
/// fall where the class of the bytes changes.
pub open spec fn gap_score(data: Seq<u8>, spans: Seq<HashedSpan>, g: int, w: int) -> int {
    (if at_boundary(data, spans, g) {
        1int
    } else {
        0int
    }) + (if at_boundary(data, spans, g + w) {
        1int
    } else {
        0int
    })
}

/// Tokens `i` and `j` hold the same bytes.
pub open spec fn same_token(data: Seq<u8>, spans: Seq<HashedSpan>, i: int, j: int) -> bool {
    span_bytes(data, spans[i]) == span_bytes(data, spans[j])
}

/// The gap of `w` tokens can move from `g` to every place down to `p`.
pub open spec fn can_slide(data: Seq<u8>, spans: Seq<HashedSpan>, p: int, g: int, w: int) -> bool {
    forall|q: int| p <= q < g ==> #[trigger] same_token(data, spans, q, q + w)
}

/// Where the gap of `w` tokens from `g` on goes: of the places not below
/// `lb` that it can move to, the one with the highest score, and of several
/// such the one nearest to `g`.
pub open spec fn best_gap(data: Seq<u8>, spans: Seq<HashedSpan>, g: int, w: int, lb: int) -> int
    decreases g - lb,
{
    if g > lb && same_token(data, spans, g - 1, g - 1 + w) {
        let q = best_gap(data, spans, g - 1, w, lb);
        if gap_score(data, spans, q, w) > gap_score(data, spans, g, w) {
            q
        } else {
            g
        }
    } else {
        g
    }
}

/// Where run `k` begins after normalization.
pub open spec fn new_start(data: Seq<u8>, spans: Seq<HashedSpan>, runs: Seq<(int, int)>, k: int) -> int
    decreases k,
{
    if k <= 0 {
        runs[0].0
    } else {
        let g = runs[k - 1].1;
        let w = runs[k].0 - g;
        best_gap(data, spans, g, w, new_start(data, spans, runs, k - 1) + 1) + w
    }
}

/// The runs after normalization: as many as before, with every gap between
/// two of them as wide as before, and moved to its best place.
pub open spec fn normalized(data: Seq<u8>, spans: Seq<HashedSpan>, runs: Seq<(int, int)>) -> Seq<
    (int, int),
> {
    Seq::new(
        runs.len(),
        |k: int|
            (
                new_start(data, spans, runs, k),
                if k + 1 < runs.len() {
                    new_start(data, spans, runs, k + 1) - (runs[k + 1].0 - runs[k].1)
                } else {
                    runs[k].1
                },
            ),
    )
}

/// The bytes that a run of shared tokens stands for: from its first token
/// to the next token behind it, or to the end of the data. The spaces that
/// follow a shared token are shared with it.
pub open spec fn segment_of(data: Seq<u8>, spans: Seq<HashedSpan>, run: (int, int)) -> (int, int) {
    (
        spans[run.0].offset as int,
        if run.1 < spans.len() {
            spans[run.1].offset as int
        } else {
            data.len() as int
        },
    )
}

/// The shared byte intervals of the runs.
pub open spec fn segments_of(data: Seq<u8>, spans: Seq<HashedSpan>, runs: Seq<(int, int)>) -> Seq<
    (int, int),
> {
    Seq::new(runs.len(), |k: int| segment_of(data, spans, runs[k]))
}

/// The best place lies between the bound and the gap, the gap can move to
/// it, no place that it can move to scores higher, and none so high lies
/// nearer to where the gap was.
pub proof fn lemma_best_gap(data: Seq<u8>, spans: Seq<HashedSpan>, g: int, w: int, lb: int)
    requires
        lb <= g,
    ensures
        lb <= best_gap(data, spans, g, w, lb) <= g,
        can_slide(data, spans, best_gap(data, spans, g, w, lb), g, w),
        forall|p: int|
            lb <= p <= g && can_slide(data, spans, p, g, w) ==> gap_score(data, spans, p, w)
                <= gap_score(data, spans, best_gap(data, spans, g, w, lb), w),
        forall|p: int|
            best_gap(data, spans, g, w, lb) < p <= g && can_slide(data, spans, p, g, w)
                ==> gap_score(data, spans, p, w) < gap_score(
                data,
                spans,
                best_gap(data, spans, g, w, lb),
                w,
            ),
    decreases g - lb,
{
    let r = best_gap(data, spans, g, w, lb);
    if g > lb && same_token(data, spans, g - 1, g - 1 + w) {
        lemma_best_gap(data, spans, g - 1, w, lb);
        let q = best_gap(data, spans, g - 1, w, lb);
        assert(can_slide(data, spans, r, g, w));
        assert forall|p: int| lb <= p <= g && can_slide(data, spans, p, g, w) implies gap_score(
            data,
            spans,
            p,
            w,
        ) <= gap_score(data, spans, r, w) by {
            if p < g {
                assert(can_slide(data, spans, p, g - 1, w));
            }
        }
        assert forall|p: int| r < p <= g && can_slide(data, spans, p, g, w) implies gap_score(
            data,
            spans,
            p,
            w,
        ) < gap_score(data, spans, r, w) by {
            if p < g {
                assert(can_slide(data, spans, p, g - 1, w));
            }
        }
    } else {
        assert forall|p: int| lb <= p <= g && can_slide(data, spans, p, g, w) implies gap_score(
            data,
            spans,
            p,
            w,
        ) <= gap_score(data, spans, r, w) by {
            if p < g {
                assert(same_token(data, spans, g - 1, g - 1 + w));
            }
        }
    }
}

/// A gap that stands at its best place stays there.
pub proof fn lemma_best_gap_fixed(data: Seq<u8>, spans: Seq<HashedSpan>, g: int, w: int, lb: int)
    requires
        lb <= g,
    ensures
        best_gap(data, spans, best_gap(data, spans, g, w, lb), w, lb) == best_gap(
            data,
            spans,
            g,
            w,
            lb,
        ),
    decreases g - lb,
{
    if g > lb && same_token(data, spans, g - 1, g - 1 + w) {
        lemma_best_gap_fixed(data, spans, g - 1, w, lb);
    }
}

/// After normalization the runs are separated as before, and none begins
/// later than before.
pub proof fn lemma_normalized(
    data: Seq<u8>,
    spans: Seq<HashedSpan>,
    runs: Seq<(int, int)>,
    k: int,
)
    requires
        runs_separated(runs, spans.len() as int),
        0 <= k < runs.len(),
    ensures
        0 <= new_start(data, spans, runs, k) <= runs[k].0,
        k > 0 ==> new_start(data, spans, runs, k - 1) + 1 <= new_start(data, spans, runs, k) - (
        runs[k].0 - runs[k - 1].1) < new_start(data, spans, runs, k),
    decreases k,
{
    if k > 0 {
        lemma_normalized(data, spans, runs, k - 1);
        let g = runs[k - 1].1;
        let w = runs[k].0 - g;
        assert(runs[k - 1].0 < runs[k - 1].1);
        lemma_best_gap(data, spans, g, w, new_start(data, spans, runs, k - 1) + 1);
    }
}

/// The normalized runs are separated runs of the same tokenization.
pub proof fn lemma_normalized_separated(
    data: Seq<u8>,
    spans: Seq<HashedSpan>,
    runs: Seq<(int, int)>,
)
    requires
        runs_separated(runs, spans.len() as int),
    ensures
        runs_separated(normalized(data, spans, runs), spans.len() as int),
        normalized(data, spans, runs).len() == runs.len(),
{
    let out = normalized(data, spans, runs);
    let n = spans.len() as int;
    assert forall|i: int| 0 <= i < out.len() implies 0 <= (#[trigger] out[i]).0 < out[i].1
        <= n by {
        lemma_normalized(data, spans, runs, i);
        if i + 1 < runs.len() {
            lemma_normalized(data, spans, runs, i + 1);
            assert(runs[i + 1].0 <= n);
        } else {
            assert(runs[i].0 < runs[i].1);
        }
    }
    assert forall|i: int, j: int| 0 <= i < j < out.len() implies (#[trigger] out[i]).1 < (
    #[trigger] out[j]).0 by {
        lemma_starts_grow(data, spans, runs, i + 1, j);
        lemma_normalized(data, spans, runs, i + 1);
    }
}

/// Later runs begin later.
pub proof fn lemma_starts_grow(
    data: Seq<u8>,
    spans: Seq<HashedSpan>,
    runs: Seq<(int, int)>,
    i: int,
    j: int,
)
    requires
        runs_separated(runs, spans.len() as int),
        0 <= i <= j < runs.len(),
    ensures
        new_start(data, spans, runs, i) <= new_start(data, spans, runs, j),
    decreases j - i,
{
    if i < j {
        lemma_starts_grow(data, spans, runs, i, j - 1);
        lemma_normalized(data, spans, runs, j);
    }
}

/// Normalizing what is normalized changes nothing.
pub proof fn lemma_normalize_twice(data: Seq<u8>, spans: Seq<HashedSpan>, runs: Seq<(int, int)>)
    requires
        runs_separated(runs, spans.len() as int),
    ensures
        normalized(data, spans, normalized(data, spans, runs)) == normalized(data, spans, runs),
        segments_of(data, spans, normalized(data, spans, normalized(data, spans, runs)))
            == segments_of(data, spans, normalized(data, spans, runs)),
{
    let once = normalized(data, spans, runs);
    let twice = normalized(data, spans, once);
    assert forall|k: int| 0 <= k < runs.len() implies new_start(data, spans, once, k) == new_start(
        data,
        spans,
        runs,
        k,
    ) by {
        lemma_same_starts(data, spans, runs, k);
    }
    assert(twice =~= once);
}

/// Run `k` begins at the same place after the second normalization as
/// after the first.
proof fn lemma_same_starts(data: Seq<u8>, spans: Seq<HashedSpan>, runs: Seq<(int, int)>, k: int)
    requires
        runs_separated(runs, spans.len() as int),
        0 <= k < runs.len(),
    ensures
        new_start(data, spans, normalized(data, spans, runs), k) == new_start(
            data,
            spans,
            runs,
            k,
        ),
    decreases k,
{
    let once = normalized(data, spans, runs);
    if k > 0 {
        lemma_same_starts(data, spans, runs, k - 1);
        lemma_normalized(data, spans, runs, k - 1);
        let g = runs[k - 1].1;
        let w = runs[k].0 - g;
        let lb = new_start(data, spans, runs, k - 1) + 1;
        assert(runs[k - 1].0 < runs[k - 1].1);
        assert(once[k - 1].1 == best_gap(data, spans, g, w, lb));
        assert(once[k].0 - once[k - 1].1 == w);
        lemma_best_gap_fixed(data, spans, g, w, lb);
    }
}

/// The tokens that the runs cover, in order.
pub open spec fn shared_tokens(tokens: Seq<Seq<u8>>, runs: Seq<(int, int)>) -> Seq<Seq<u8>>
    decreases runs.len(),
{
    if runs.len() == 0 {
        Seq::empty()
    } else {
        shared_tokens(tokens, runs.drop_last()) + tokens.subrange(runs.last().0, runs.last().1)
    }
}

/// Where a run begins after normalization does not depend on the runs
/// behind it.
proof fn lemma_prefix_starts(
    data: Seq<u8>,
    spans: Seq<HashedSpan>,
    runs: Seq<(int, int)>,
    k: int,
    i: int,
)
    requires
        0 <= i < k <= runs.len(),
    ensures
        new_start(data, spans, runs.subrange(0, k), i) == new_start(data, spans, runs, i),
    decreases i,
{
    if i > 0 {
        lemma_prefix_starts(data, spans, runs, k, i - 1);
    }
}

/// The first runs of separated runs are separated.
proof fn lemma_prefix_separated(runs: Seq<(int, int)>, n: int, k: int)
    requires
        runs_separated(runs, n),
        0 <= k <= runs.len(),
    ensures
        runs_separated(runs.subrange(0, k), n),
{
    let front = runs.subrange(0, k);
    assert forall|i: int| 0 <= i < front.len() implies 0 <= (#[trigger] front[i]).0 < front[i].1
        <= n by {
        assert(front[i] == runs[i]);
    }
    assert forall|i: int, j: int| 0 <= i < j < front.len() implies (#[trigger] front[i]).1 < (
    #[trigger] front[j]).0 by {
        assert(front[i] == runs[i] && front[j] == runs[j]);
    }
}

/// Where the tokens from `place` to `gap` equal those `width` further on,
/// leaving out the `width` tokens from `place` on gives the same tokens as
/// leaving out those from `gap` on.
proof fn lemma_slide_tokens(
    t: Seq<Seq<u8>>,
    first: int,
    place: int,
    gap: int,
    width: int,
    end: int,
)
    requires
        0 <= first <= place <= gap,
        0 <= width,
        gap + width <= end <= t.len(),
        forall|q: int| place <= q < gap ==> t[q + width] == #[trigger] t[q],
    ensures
        t.subrange(first, place) + t.subrange(place + width, end) == t.subrange(first, gap)
            + t.subrange(gap + width, end),
{
    let left = t.subrange(first, place) + t.subrange(place + width, end);
    let right = t.subrange(first, gap) + t.subrange(gap + width, end);
    assert(left.len() == right.len());
    assert forall|i: int| 0 <= i < left.len() implies left[i] == right[i] by {
        if i < place - first {
        } else if i < gap - first {
            assert(left[i] == t[i + first + width]);
            assert(right[i] == t[i + first]);
        } else {
        }
    }
    assert(left =~= right);
}

/// The runs before the last of the first `k` normalized runs are those of
/// the first `k - 1` normalized runs, and the last two runs are as the
/// place of the gap between them says.
proof fn lemma_prefix_runs(data: Seq<u8>, spans: Seq<HashedSpan>, runs: Seq<(int, int)>, k: int)
    requires
        2 <= k <= runs.len(),
    ensures
        ({
            let after = normalized(data, spans, runs.subrange(0, k));
            let after_front = normalized(data, spans, runs.subrange(0, k - 1));
            let gap = runs[k - 2].1;
            let width = runs[k - 1].0 - gap;
            let first = new_start(data, spans, runs, k - 2);
            let place = best_gap(data, spans, gap, width, first + 1);
            &&& after.len() == k
            &&& after_front.len() == k - 1
            &&& after[k - 1] == (place + width, runs[k - 1].1)
            &&& after[k - 2] == (first, place)
            &&& after_front[k - 2] == (first, gap)
            &&& after.drop_last().drop_last() == after_front.drop_last()
        }),
{
    let given = runs.subrange(0, k);
    let given_front = runs.subrange(0, k - 1);
    let after = normalized(data, spans, given);
    let after_front = normalized(data, spans, given_front);
    lemma_prefix_starts(data, spans, runs, k, k - 1);
    lemma_prefix_starts(data, spans, runs, k, k - 2);
    lemma_prefix_starts(data, spans, runs, k - 1, k - 2);
    assert(given[k - 1] == runs[k - 1] && given[k - 2] == runs[k - 2]);
    assert(given_front[k - 2] == runs[k - 2]);
    assert forall|i: int| 0 <= i < k - 2 implies after.drop_last().drop_last()[i]
        == after_front.drop_last()[i] by {
        lemma_prefix_starts(data, spans, runs, k, i);
        lemma_prefix_starts(data, spans, runs, k, i + 1);
        lemma_prefix_starts(data, spans, runs, k - 1, i);
        lemma_prefix_starts(data, spans, runs, k - 1, i + 1);
        assert(given[i] == runs[i] && given[i + 1] == runs[i + 1]);
        assert(given_front[i] == runs[i] && given_front[i + 1] == runs[i + 1]);
    }
    assert(after.drop_last().drop_last() =~= after_front.drop_last());
}

/// The first `k` runs cover the same tokens after normalization as before.
#[verifier::rlimit(40)]
proof fn lemma_prefix_tokens(data: Seq<u8>, spans: Seq<HashedSpan>, runs: Seq<(int, int)>, k: int)
    requires
        runs_separated(runs, spans.len() as int),
        0 <= k <= runs.len(),
    ensures
        shared_tokens(
            tokens_of(data, spans),
            normalized(data, spans, runs.subrange(0, k)),
        ) == shared_tokens(tokens_of(data, spans), runs.subrange(0, k)),
    decreases k,
{
    let t = tokens_of(data, spans);
    let given = runs.subrange(0, k);
    let after = normalized(data, spans, given);
    if k == 0 {
    } else if k == 1 {
        assert(after =~= given);
    } else {
        let given_front = runs.subrange(0, k - 1);
        let after_front = normalized(data, spans, given_front);
        let gap = runs[k - 2].1;
        let width = runs[k - 1].0 - gap;
        let end = runs[k - 1].1;
        let first = new_start(data, spans, runs, k - 2);
        let place = best_gap(data, spans, gap, width, first + 1);
        let before = shared_tokens(t, after_front.drop_last());
        lemma_prefix_tokens(data, spans, runs, k - 1);
        lemma_prefix_runs(data, spans, runs, k);
        assert(first + 1 <= place <= gap && gap + width <= end <= t.len() && width > 0 && first
            >= 0 && (forall|q: int| place <= q < gap ==> t[q + width] == #[trigger] t[q])) by {
            lemma_normalized(data, spans, runs, k - 2);
            assert(runs[k - 2].0 < runs[k - 2].1);
            assert(runs[k - 2].1 < runs[k - 1].0);
            assert(runs[k - 1].0 < runs[k - 1].1 <= spans.len());
            lemma_best_gap(data, spans, gap, width, first + 1);
            assert forall|q: int| place <= q < gap implies t[q + width] == #[trigger] t[q] by {
                assert(same_token(data, spans, q, q + width));
            }
        }
        lemma_slide_tokens(t, first, place, gap, width, end);
        assert(shared_tokens(t, after) == before + t.subrange(first, place) + t.subrange(
            place + width,
            end,
        )) by {
            assert(after.last() == (place + width, end));
            assert(after.drop_last().last() == (first, place));
            assert(shared_tokens(t, after.drop_last()) == shared_tokens(
                t,
                after.drop_last().drop_last(),
            ) + t.subrange(first, place));
            assert(shared_tokens(t, after) == shared_tokens(t, after.drop_last()) + t.subrange(
                place + width,
                end,
            ));
        }
        assert(shared_tokens(t, given) == before + t.subrange(first, gap) + t.subrange(
            gap + width,
            end,
        )) by {
            assert(after_front.last() == (first, gap));
            assert(given.drop_last() =~= given_front);
            assert(given.last() == runs[k - 1]);
            assert(shared_tokens(t, after_front) == before + t.subrange(first, gap));
            assert(shared_tokens(t, given) == shared_tokens(t, given_front) + t.subrange(
                gap + width,
                end,
            ));
        }
        assert(before + t.subrange(first, place) + t.subrange(place + width, end) =~= before + (
        t.subrange(first, place) + t.subrange(place + width, end)));
        assert(before + t.subrange(first, gap) + t.subrange(gap + width, end) =~= before + (
        t.subrange(first, gap) + t.subrange(gap + width, end)));
    }
}

/// Normalization changes where the shared tokens are taken from, not what
/// they are: the runs cover the same tokens, token for token, after it as
/// before.
pub proof fn lemma_normalized_tokens(data: Seq<u8>, spans: Seq<HashedSpan>, runs: Seq<(int, int)>)
    requires
        runs_separated(runs, spans.len() as int),
    ensures
        shared_tokens(tokens_of(data, spans), normalized(data, spans, runs)) == shared_tokens(
            tokens_of(data, spans),
            runs,
        ),
{
    lemma_prefix_tokens(data, spans, runs, runs.len() as int);
    assert(runs.subrange(0, runs.len() as int) =~= runs);
}

/// Every gap between two runs stands, after normalization, at a place
/// that it can move to without taking the last token of the run before
/// it, and no such place has more borders where the class of the bytes
/// changes.
pub proof fn lemma_normalized_best(
    data: Seq<u8>,
    spans: Seq<HashedSpan>,
    runs: Seq<(int, int)>,
    k: int,
)
    requires
        runs_separated(runs, spans.len() as int),
        0 < k < runs.len(),
    ensures
        ({
            let gap = runs[k - 1].1;
            let width = runs[k].0 - gap;
            let bound = normalized(data, spans, runs)[k - 1].0 + 1;
            let place = normalized(data, spans, runs)[k - 1].1;
            &&& bound <= place <= gap
            &&& normalized(data, spans, runs)[k].0 == place + width
            &&& can_slide(data, spans, place, gap, width)
            &&& forall|p: int|
                bound <= p <= gap && can_slide(data, spans, p, gap, width) ==> gap_score(
                    data,
                    spans,
                    p,
                    width,
                ) <= gap_score(data, spans, place, width)
        }),
{
    lemma_normalized(data, spans, runs, k - 1);
    assert(runs[k - 1].0 < runs[k - 1].1);
    lemma_best_gap(
        data,
        spans,
        runs[k - 1].1,
        runs[k].0 - runs[k - 1].1,
        new_start(data, spans, runs, k - 1) + 1,
    );
}

/// The tokens that the snakes cover on one side, in order.
pub open spec fn snake_tokens(tokens: Seq<Seq<u8>>, snakes: Seq<Snake>, added: bool) -> Seq<
    Seq<u8>,
>
    decreases snakes.len(),
{
    if snakes.len() == 0 {
        Seq::empty()
    } else {
        snake_tokens(tokens, snakes.drop_last(), added) + tokens.subrange(
            side_run(snakes.last(), added).0,
            side_run(snakes.last(), added).1,
        )
    }
}

/// Making one run of runs that touch changes no token: the runs of the
/// snakes cover the tokens that the snakes cover.
#[verifier::rlimit(40)]
pub proof fn lemma_merged_tokens(tokens: Seq<Seq<u8>>, snakes: Seq<Snake>, added: bool, n: int, m: int)
    requires
        snakes_ordered(snakes, n, m),
        tokens.len() == (if added {
            m
        } else {
            n
        }),
    ensures
        shared_tokens(tokens, merged_runs(snakes, added)) == snake_tokens(tokens, snakes, added),
    decreases snakes.len(),
{
    if snakes.len() > 0 {
        let rest = snakes.drop_last();
        assert forall|k: int| 0 <= k < rest.len() implies 0 < (#[trigger] rest[k]).length
            && rest[k].x0 + rest[k].length <= n && rest[k].y0 + rest[k].length <= m by {
            assert(rest[k] == snakes[k]);
        }
        assert forall|k: int, l: int| 0 <= k < l < rest.len() implies (#[trigger] rest[k]).x0
            + rest[k].length <= (#[trigger] rest[l]).x0 && rest[k].y0 + rest[k].length
            <= rest[l].y0 by {
            assert(rest[k] == snakes[k] && rest[l] == snakes[l]);
        }
        lemma_merged_tokens(tokens, rest, added, n, m);
        lemma_merged_runs(rest, added, n, m);
        let front = merged_runs(rest, added);
        let run = side_run(snakes.last(), added);
        let out = merged_runs(snakes, added);
        assert(0 < snakes[snakes.len() - 1].length);
        if front.len() > 0 && front.last().1 == run.0 {
            let joined = (front.last().0, run.1);
            assert(out.drop_last() =~= front.drop_last());
            assert(out.last() == joined);
            assert(front[front.len() - 1].0 < front[front.len() - 1].1);
            assert(tokens.subrange(joined.0, joined.1) =~= tokens.subrange(
                front.last().0,
                front.last().1,
            ) + tokens.subrange(run.0, run.1));
            assert(shared_tokens(tokens, front.drop_last()) + tokens.subrange(joined.0, joined.1)
                =~= shared_tokens(tokens, front.drop_last()) + tokens.subrange(
                front.last().0,
                front.last().1,
            ) + tokens.subrange(run.0, run.1));
        } else {
            assert(out.drop_last() =~= front);
        }
    }
}

/// The snakes of an alignment cover the same tokens on both sides.
pub proof fn lemma_alignment_tokens(a: Seq<Seq<u8>>, b: Seq<Seq<u8>>, snakes: Seq<Snake>)
    requires
        forall|k: int| 0 <= k < snakes.len() ==> snake_matches(
            a,
            b,
            #[trigger] snakes[k],
        ),
    ensures
        snake_tokens(a, snakes, false) == snake_tokens(b, snakes, true),
    decreases snakes.len(),
{
    if snakes.len() > 0 {
        let rest = snakes.drop_last();
        assert forall|k: int| 0 <= k < rest.len() implies snake_matches(
            a,
            b,
            #[trigger] rest[k],
        ) by {
            assert(rest[k] == snakes[k]);
        }
        lemma_alignment_tokens(a, b, rest);
        let s = snakes[snakes.len() - 1];
        assert(snake_matches(a, b, s));
        let left = a.subrange(s.x0 as int, s.x0 + s.length);
        let right = b.subrange(s.y0 as int, s.y0 + s.length);
        assert forall|q: int| 0 <= q < s.length implies #[trigger] left[q] == right[q] by {
            assert(a[s.x0 + q] == b[(s.x0 + q) - s.x0 + s.y0]);
        }
        assert(a.subrange(s.x0 as int, s.x0 + s.length) =~= b.subrange(
            s.y0 as int,
            s.y0 + s.length,
        ));
    }
}

/// The runs of an ordered list of snakes are separated once those that
/// touch are made one, and the last of them ends where the last snake ends.
#[verifier::rlimit(40)]
pub proof fn lemma_merged_runs(snakes: Seq<Snake>, added: bool, n: int, m: int)
    requires
        snakes_ordered(snakes, n, m),
    ensures
        runs_separated(
            merged_runs(snakes, added),
            if added {
                m
            } else {
                n
            },
        ),
        merged_runs(snakes, added).len() <= snakes.len(),
        snakes.len() > 0 ==> merged_runs(snakes, added).len() > 0 && merged_runs(
            snakes,
            added,
        ).last().1 == side_run(snakes.last(), added).1,
    decreases snakes.len(),
{
    if snakes.len() > 0 {
        let rest = snakes.drop_last();
        assert forall|k: int| 0 <= k < rest.len() implies 0 < (#[trigger] rest[k]).length
            && rest[k].x0 + rest[k].length <= n && rest[k].y0 + rest[k].length <= m by {
            assert(rest[k] == snakes[k]);
        }
        assert forall|k: int, l: int| 0 <= k < l < rest.len() implies (#[trigger] rest[k]).x0
            + rest[k].length <= (#[trigger] rest[l]).x0 && rest[k].y0 + rest[k].length
            <= rest[l].y0 by {
            assert(rest[k] == snakes[k] && rest[l] == snakes[l]);
        }
        lemma_merged_runs(rest, added, n, m);
        let front = merged_runs(rest, added);
        let run = side_run(snakes.last(), added);
        let out = merged_runs(snakes, added);
        let bound = if added {
            m
        } else {
            n
        };
        assert(0 < snakes[snakes.len() - 1].length);
        if rest.len() > 0 {
            assert(rest.last() == snakes[snakes.len() - 2]);
            assert(front.last().1 <= run.0);
        }
        assert forall|i: int| 0 <= i < out.len() implies 0 <= (#[trigger] out[i]).0 < out[i].1
            <= bound by {
            if i < front.len() - 1 {
                assert(out[i] == front[i]);
            } else if i < front.len() {
                assert(front[i].0 < front[i].1);
            }
        }
        assert forall|i: int, j: int| 0 <= i < j < out.len() implies (#[trigger] out[i]).1 < (
        #[trigger] out[j]).0 by {
            if j < front.len() {
                assert(front[i].1 < front[j].0);
            } else {
                assert(out[j] == run);
                assert(out[i] == front[i]);
                if i < front.len() - 1 {
                    assert(front[i].1 < front[front.len() - 1].0);
                    assert(front[front.len() - 1].0 < front[front.len() - 1].1);
                }
            }
        }
    }
}

/// The runs of tokens that the snakes cover on one side: on the added side
/// where `added` is set, else on the removed side.
#[verifier::rlimit(40)]
pub fn shared_runs(snakes: &Vec<Snake>, added: bool) -> (runs: Vec<(usize, usize)>)
    requires
        snakes_ordered(snakes@, usize::MAX as int, usize::MAX as int),
    ensures
        as_ints(runs@) == merged_runs(snakes@, added),
{
    let mut runs: Vec<(usize, usize)> = Vec::new();
    let mut i: usize = 0;
    proof {
        assert(snakes@.subrange(0, 0) =~= Seq::<Snake>::empty());
        assert(as_ints(runs@) =~= merged_runs(snakes@.subrange(0, 0), added));
    }
    while i < snakes.len()
        invariant
            i <= snakes@.len(),
            snakes_ordered(snakes@, usize::MAX as int, usize::MAX as int),
            as_ints(runs@) == merged_runs(snakes@.subrange(0, i as int), added),
        decreases snakes@.len() - i,
    {
        let s = snakes[i];
        let start = if added {
            s.y0
        } else {
            s.x0
        };
        let end = start + s.length;
        let ghost before = runs@;
        proof {
            assert(snakes@.subrange(0, i + 1).drop_last() =~= snakes@.subrange(0, i as int));
            assert(snakes@.subrange(0, i + 1).last() == s);
            assert(side_run(s, added) == (start as int, end as int));
        }
        let count = runs.len();
        if count > 0 && runs[count - 1].1 == start {
            let first = runs[count - 1].0;
            runs.set(count - 1, (first, end));
            proof {
                assert(as_ints(before)[count - 1] == (before[count - 1].0 as int, before[count
                    - 1].1 as int));
                assert(as_ints(runs@) =~= as_ints(before).update(
                    count - 1,
                    (first as int, end as int),
                ));
            }
        } else {
            runs.push((start, end));
            proof {
                if count > 0 {
                    assert(as_ints(before)[count - 1] == (before[count - 1].0 as int, before[count
                        - 1].1 as int));
                }
                assert(as_ints(runs@) =~= as_ints(before).push((start as int, end as int)));
            }
        }
        i += 1;
    }
    proof {
        assert(snakes@.subrange(0, snakes@.len() as int) =~= snakes@);
    }
    runs
}

/// Whether token `i` begins where the class of the bytes changes.
fn starts_at_boundary(seq: &Tokenization, i: usize) -> (yes: bool)
    requires
        seq.wf(),
        i < seq.spans@.len(),
    ensures
        yes == at_boundary(seq.data@, seq.spans@, i as int),
{
    let offset = seq.spans[i].offset;
    assert(span_ok(seq.data@, seq.spans@[i as int]));
    offset == 0 || classify_byte(seq.data[offset - 1]) != classify_byte(seq.data[offset])
}

/// The score of the gap of `w` tokens from token `g` on.
fn score_gap(seq: &Tokenization, g: usize, w: usize) -> (score: u8)
    requires
        seq.wf(),
        g + w < seq.spans@.len(),
    ensures
        score == gap_score(seq.data@, seq.spans@, g as int, w as int),
{
    let n = seq.spans.len();
    assert(g + w < n);
    let lo: u8 = if starts_at_boundary(seq, g) {
        1
    } else {
        0
    };
    let hi: u8 = if starts_at_boundary(seq, g + w) {
        1
    } else {
        0
    };
    lo + hi
}

/// Moves the gap of `w` tokens from token `g` on to its best place not
/// below `lb`.
#[verifier::rlimit(40)]
fn slide_gap(seq: &Tokenization, g: usize, w: usize, lb: usize) -> (p: usize)
    requires
        seq.wf(),
        lb <= g,
        g + w < seq.spans@.len(),
    ensures
        p == best_gap(seq.data@, seq.spans@, g as int, w as int, lb as int),
        lb <= p <= g,
{
    let ghost data = seq.data@;
    let ghost spans = seq.spans@;
    let ghost toks = seq.tokens();
    let n = seq.spans.len();
    let mut stop = g;
    while stop > lb && tokens_equal(seq, stop - 1, seq, stop - 1 + w)
        invariant
            seq.wf(),
            n == spans.len(),
            data == seq.data@,
            spans == seq.spans@,
            toks == seq.tokens(),
            lb <= stop <= g,
            g + w < spans.len(),
            forall|q: int| stop <= q < g ==> #[trigger] same_token(data, spans, q, q + w),
        decreases stop,
    {
        proof {
            assert(toks[stop - 1] == span_bytes(data, spans[stop - 1]));
            assert(toks[stop - 1 + w] == span_bytes(data, spans[stop - 1 + w]));
        }
        stop -= 1;
    }
    proof {
        if stop > lb {
            assert(toks[stop - 1] == span_bytes(data, spans[stop - 1]));
            assert(toks[stop - 1 + w] == span_bytes(data, spans[stop - 1 + w]));
        }
        assert(best_gap(data, spans, stop as int, w as int, lb as int) == stop);
    }
    let mut best = stop;
    let mut best_score = score_gap(seq, stop, w);
    let mut pos = stop;
    while pos < g
        invariant
            seq.wf(),
            data == seq.data@,
            spans == seq.spans@,
            lb <= stop <= pos <= g,
            g + w < spans.len(),
            forall|q: int| stop <= q < g ==> #[trigger] same_token(data, spans, q, q + w),
            best == best_gap(data, spans, pos as int, w as int, lb as int),
            best_score == gap_score(data, spans, best as int, w as int),
            lb <= best <= pos,
        decreases g - pos,
    {
        proof {
            assert(same_token(data, spans, pos as int, pos + w));
        }
        pos += 1;
        let score = score_gap(seq, pos, w);
        if !(best_score > score) {
            best = pos;
            best_score = score;
        }
    }
    best
}

/// The runs of a normalized common subsequence.
pub struct NormalizationResult {
    pub runs: Vec<(usize, usize)>,
}

impl NormalizationResult {
    /// The byte intervals of `seq` that the runs stand for, in order.
    pub fn shared_segments(&self, seq: &Tokenization) -> (segments: Vec<(usize, usize)>)
        requires
            seq.wf(),
            runs_separated(as_ints(self.runs@), seq.spans@.len() as int),
        ensures
            as_ints(segments@) == segments_of(seq.data@, seq.spans@, as_ints(self.runs@)),
    {
        let mut segments: Vec<(usize, usize)> = Vec::new();
        let n = seq.spans.len();
        let total = seq.data.len();
        let mut k: usize = 0;
        while k < self.runs.len()
            invariant
                n == seq.spans@.len(),
                total == seq.data@.len(),
                k <= self.runs@.len(),
                segments@.len() == k,
                runs_separated(as_ints(self.runs@), seq.spans@.len() as int),
                forall|i: int|
                    0 <= i < k ==> (#[trigger] as_ints(segments@)[i]) == segment_of(
                        seq.data@,
                        seq.spans@,
                        as_ints(self.runs@)[i],
                    ),
            decreases self.runs@.len() - k,
        {
            let run = self.runs[k];
            proof {
                assert(as_ints(self.runs@)[k as int] == (run.0 as int, run.1 as int));
            }
            let lo = seq.spans[run.0].offset;
            let hi = if run.1 < n {
                seq.spans[run.1].offset
            } else {
                total
            };
            let ghost before = segments@;
            segments.push((lo, hi));
            proof {
                assert forall|i: int| 0 <= i < k + 1 implies (#[trigger] as_ints(segments@)[i])
                    == segment_of(seq.data@, seq.spans@, as_ints(self.runs@)[i]) by {
                    if i < k {
                        assert(as_ints(before)[i] == (before[i].0 as int, before[i].1 as int));
                    }
                }
            }
            k += 1;
        }
        proof {
            assert(as_ints(segments@) =~= segments_of(seq.data@, seq.spans@, as_ints(self.runs@)));
        }
        segments
    }
}

/// The gap before run `k` lies between the runs as they stand after the
/// gaps before it have been moved, and the run before it keeps a token.
proof fn lemma_gap_in_order(data: Seq<u8>, spans: Seq<HashedSpan>, runs: Seq<(int, int)>, k: int)
    requires
        runs_separated(runs, spans.len() as int),
        0 < k < runs.len(),
    ensures
        0 <= new_start(data, spans, runs, k - 1) < runs[k - 1].1 < runs[k].0 < spans.len(),
        normalized(data, spans, runs)[k - 1] == (
            new_start(data, spans, runs, k - 1),
            best_gap(
                data,
                spans,
                runs[k - 1].1,
                runs[k].0 - runs[k - 1].1,
                new_start(data, spans, runs, k - 1) + 1,
            ),
        ),
        new_start(data, spans, runs, k) == best_gap(
            data,
            spans,
            runs[k - 1].1,
            runs[k].0 - runs[k - 1].1,
            new_start(data, spans, runs, k - 1) + 1,
        ) + (runs[k].0 - runs[k - 1].1),
{
    lemma_normalized(data, spans, runs, k - 1);
    assert(runs[k - 1].0 < runs[k - 1].1);
    assert(runs[k - 1].1 < runs[k].0);
    assert(runs[k].0 < runs[k].1 <= spans.len());
}

/// One more run of the result has been written.
proof fn lemma_pushed(
    before: Seq<(usize, usize)>,
    run: (usize, usize),
    target: Seq<(int, int)>,
    k: int,
)
    requires
        before.len() == k,
        0 <= k < target.len(),
        forall|i: int| 0 <= i < k ==> (#[trigger] as_ints(before)[i]) == target[i],
        (run.0 as int, run.1 as int) == target[k],
    ensures
        forall|i: int| 0 <= i < k + 1 ==> (#[trigger] as_ints(before.push(run))[i]) == target[i],
{
    assert forall|i: int| 0 <= i < k + 1 implies (#[trigger] as_ints(before.push(run))[i])
        == target[i] by {
        if i < k {
            assert(as_ints(before)[i] == target[i]);
            assert(before.push(run)[i] == before[i]);
        }
    }
}

/// Moves every gap between two runs of shared tokens of `seq` to its best
/// place, the gaps taken from left to right.
#[verifier::rlimit(40)]
pub fn optimize_partition(seq: &Tokenization, runs: &Vec<(usize, usize)>) -> (result:
    NormalizationResult)
    requires
        seq.wf(),
        runs_separated(as_ints(runs@), seq.spans@.len() as int),
    ensures
        as_ints(result.runs@) == normalized(seq.data@, seq.spans@, as_ints(runs@)),
        runs_separated(as_ints(result.runs@), seq.spans@.len() as int),
{
    let ghost data = seq.data@;
    let ghost spans = seq.spans@;
    let ghost given = as_ints(runs@);
    let mut out: Vec<(usize, usize)> = Vec::new();
    let count = runs.len();
    if count == 0 {
        proof {
            assert(as_ints(out@) =~= normalized(data, spans, given));
            lemma_normalized_separated(data, spans, given);
        }
        return NormalizationResult { runs: out };
    }
    let ghost target = normalized(data, spans, given);
    let first = runs[0];
    proof {
        assert(given[0] == (first.0 as int, first.1 as int));
    }
    let mut start: usize = first.0;
    let mut k: usize = 1;
    while k < count
        invariant
            seq.wf(),
            data == seq.data@,
            spans == seq.spans@,
            given == as_ints(runs@),
            target == normalized(data, spans, given),
            count == runs@.len(),
            runs_separated(given, spans.len() as int),
            1 <= k <= count,
            out@.len() == k - 1,
            start == new_start(data, spans, given, k - 1),
            forall|i: int| 0 <= i < k - 1 ==> (#[trigger] as_ints(out@)[i]) == target[i],
        decreases count - k,
    {
        let prev = runs[k - 1];
        let next = runs[k];
        proof {
            assert(given[k - 1] == (prev.0 as int, prev.1 as int));
            assert(given[k as int] == (next.0 as int, next.1 as int));
            lemma_gap_in_order(data, spans, given, k as int);
        }
        let gap = prev.1;
        let width = next.0 - gap;
        let place = slide_gap(seq, gap, width, start + 1);
        let ghost before = out@;
        out.push((start, place));
        proof {
            lemma_pushed(before, (start, place), target, k - 1);
        }
        start = place + width;
        k += 1;
    }
    let last = runs[count - 1];
    let ghost before = out@;
    out.push((start, last.1));
    proof {
        assert(given[count - 1] == (last.0 as int, last.1 as int));
        lemma_pushed(before, (start, last.1), target, count - 1);
        assert(as_ints(out@) =~= target);
        lemma_normalized_separated(data, spans, given);
    }
    NormalizationResult { runs: out }
}

} // verus!

//! Myers' algorithm on token sequences: the furthest point reached on every
//! diagonal with `d` edits, for growing `d`, with the snakes met on the way.

use vstd::prelude::*;
use crate::lcs::{edit_distance, lcs_len, lemma_lcs_step};
use crate::snake::{
    ends_by,
    is_alignment,
    lemma_alignment_bound,
    lemma_alignment_push,
    lemma_alignment_strict,
    snake_matches,
    total_length,
    Snake,
};
use crate::token::{tokens_equal, Tokenization};

verus! {

/// The two token sequences to compare.
pub struct DiffInput<'a> {
    pub removed: Tokenization<'a>,
    pub added: Tokenization<'a>,
}

impl<'a> DiffInput<'a> {
    /// Both tokenizations are in order.
    pub open spec fn wf(&self) -> bool {
        self.removed.wf() && self.added.wf()
    }

    /// The removed tokens.
    pub open spec fn a(&self) -> Seq<Seq<u8>> {
        self.removed.tokens()
    }

    /// The added tokens.
    pub open spec fn b(&self) -> Seq<Seq<u8>> {
        self.added.tokens()
    }

    /// Number of removed tokens.
    pub fn n(&self) -> (n: usize)
        ensures
            n == self.a().len(),
    {
        self.removed.nb_tokens()
    }

    /// Number of added tokens.
    pub fn m(&self) -> (m: usize)
        ensures
            m == self.b().len(),
    {
        self.added.nb_tokens()
    }
}

/// A snake of a path, and the place of the node that holds the snake
/// before it: 0 where it is the first, else the node's index plus one.
#[derive(Clone, Copy, Debug)]
pub struct PathNode {
    pub snake: Snake,
    pub prev: usize,
}

/// Working memory of `diff`, kept between calls to save allocations.
pub struct DiffScratch {
    /// Per diagonal, the furthest `x` reached.
    pub xs: Vec<usize>,
    /// Per diagonal, the last node of the path that reached it.
    pub heads: Vec<usize>,
    /// The snakes of all paths.
    pub nodes: Vec<PathNode>,
}

impl DiffScratch {
    /// Empty working memory.
    pub fn new() -> (s: Self)
        ensures
            s.xs@.len() == 0,
            s.heads@.len() == 0,
            s.nodes@.len() == 0,
    {
        DiffScratch { xs: Vec::new(), heads: Vec::new(), nodes: Vec::new() }
    }
}

/// The snakes of the path that ends in node `head`, first to last.
spec fn chain(nodes: Seq<PathNode>, head: int) -> Seq<Snake>
    decreases head,
{
    if head <= 0 || head > nodes.len() || nodes[head - 1].prev >= head {
        Seq::empty()
    } else {
        chain(nodes, nodes[head - 1].prev as int).push(nodes[head - 1].snake)
    }
}

/// The matching run from `(x, y)` cannot be made longer.
pub open spec fn stopped(a: Seq<Seq<u8>>, b: Seq<Seq<u8>>, x: int, y: int) -> bool {
    !(0 <= x < a.len() && 0 <= y < b.len() && a[x] == b[y])
}

/// No snake can be made longer at its end: the pair behind it does not
/// match, or one of the sequences ends there.
pub open spec fn all_stopped(a: Seq<Seq<u8>>, b: Seq<Seq<u8>>, snakes: Seq<Snake>) -> bool {
    forall|k: int|
        0 <= k < snakes.len() ==> stopped(
            a,
            b,
            (#[trigger] snakes[k]).x0 + snakes[k].length,
            snakes[k].y0 + snakes[k].length,
        )
}

/// The snakes are an alignment that ends by `(x, y)`, and the way to
/// `(x, y)` along them takes `d` steps off the diagonals.
spec fn path_ok(
    a: Seq<Seq<u8>>,
    b: Seq<Seq<u8>>,
    path: Seq<Snake>,
    x: int,
    y: int,
    d: int,
) -> bool {
    &&& is_alignment(a, b, path)
    &&& all_stopped(a, b, path)
    &&& ends_by(path, x, y)
    &&& x + y - 2 * total_length(path) == d
}

/// No point of diagonal `k` that `d` edits reach lies beyond `x`.
spec fn furthest(a: Seq<Seq<u8>>, b: Seq<Seq<u8>>, d: int, k: int, x: int) -> bool {
    forall|p: int, q: int|
        0 <= p && 0 <= q && p - q == k && p + q - 2 * #[trigger] lcs_len(a, b, p, q) <= d ==> p
            <= x
}

/// What is recorded for diagonal `2 * t - d` after round `d`: the point,
/// a path to it with `d` edits, and that no such path reaches further.
#[verifier::opaque]
spec fn slot_ok(
    a: Seq<Seq<u8>>,
    b: Seq<Seq<u8>>,
    nodes: Seq<PathNode>,
    xs: Seq<usize>,
    heads: Seq<usize>,
    max: int,
    d: int,
    t: int,
) -> bool {
    let k = 2 * t - d;
    let j = max + k;
    &&& 0 <= j < xs.len()
    &&& xs.len() == heads.len()
    &&& xs[j] - k >= 0
    &&& xs[j] <= a.len() + d
    &&& heads[j] <= nodes.len()
    &&& path_ok(a, b, chain(nodes, heads[j] as int), xs[j] as int, xs[j] - k, d)
    &&& furthest(a, b, d, k, xs[j] as int)
}

/// The point recorded for diagonal `2 * t - d` lies at or beyond the end
/// of both sequences.
spec fn slot_final(
    a: Seq<Seq<u8>>,
    b: Seq<Seq<u8>>,
    xs: Seq<usize>,
    max: int,
    d: int,
    t: int,
) -> bool {
    xs[max + 2 * t - d] >= a.len() && xs[max + 2 * t - d] - (2 * t - d) >= b.len()
}

/// Nodes added behind a path do not change it.
proof fn lemma_chain_extend(nodes: Seq<PathNode>, more: Seq<PathNode>, head: int)
    requires
        nodes.len() <= more.len(),
        more.subrange(0, nodes.len() as int) == nodes,
        0 <= head <= nodes.len(),
    ensures
        chain(more, head) == chain(nodes, head),
    decreases head,
{
    if head > 0 {
        assert(more[head - 1] == more.subrange(0, nodes.len() as int)[head - 1]);
        if nodes[head - 1].prev < head {
            lemma_chain_extend(nodes, more, nodes[head - 1].prev as int);
        }
    }
}

/// A slot that was not written stays as it is when nodes are added.
proof fn lemma_slot_frame(
    a: Seq<Seq<u8>>,
    b: Seq<Seq<u8>>,
    nodes: Seq<PathNode>,
    xs: Seq<usize>,
    heads: Seq<usize>,
    more: Seq<PathNode>,
    xs2: Seq<usize>,
    heads2: Seq<usize>,
    max: int,
    d: int,
    t: int,
)
    requires
        slot_ok(a, b, nodes, xs, heads, max, d, t),
        nodes.len() <= more.len(),
        more.subrange(0, nodes.len() as int) == nodes,
        xs2.len() == xs.len(),
        heads2.len() == heads.len(),
        xs2[max + 2 * t - d] == xs[max + 2 * t - d],
        heads2[max + 2 * t - d] == heads[max + 2 * t - d],
    ensures
        slot_ok(a, b, more, xs2, heads2, max, d, t),
{
    reveal(slot_ok);
    lemma_chain_extend(nodes, more, heads[max + 2 * t - d] as int);
}

/// A point that `d` edits reach lies no further than the point that the
/// algorithm records for its diagonal.
proof fn lemma_furthest_point(
    a: Seq<Seq<u8>>,
    b: Seq<Seq<u8>>,
    d: int,
    k: int,
    x: int,
    left: int,
    right: int,
    p: int,
    q: int,
)
    requires
        0 <= d,
        -d <= k <= d,
        0 <= x,
        0 <= x - k,
        stopped(a, b, x, x - k),
        k > -d ==> furthest(a, b, d - 1, k - 1, left) && left + 1 <= x,
        k < d ==> furthest(a, b, d - 1, k + 1, right) && right <= x,
        0 <= p,
        0 <= q,
        p - q == k,
        edit_distance(a, b, p, q) <= d,
    ensures
        p <= x,
    decreases p + q,
{
    lemma_lcs_step(a, b, p, q);
    if p > 0 && q > 0 && p <= a.len() && q <= b.len() && a[p - 1] == b[q - 1] {
        lemma_furthest_point(a, b, d, k, x, left, right, p - 1, q - 1);
    } else if p == 0 && q == 0 {
    } else if q > 0 && lcs_len(a, b, p, q) == lcs_len(a, b, p, q - 1) {
        lemma_lcs_step(a, b, p, q - 1);
        assert(p + (q - 1) - 2 * lcs_len(a, b, p, q - 1) <= d - 1);
    } else {
        lemma_lcs_step(a, b, p - 1, q);
        assert((p - 1) + q - 2 * lcs_len(a, b, p - 1, q) <= d - 1);
    }
}

/// The point that the algorithm records is the furthest on its diagonal.
proof fn lemma_furthest(
    a: Seq<Seq<u8>>,
    b: Seq<Seq<u8>>,
    d: int,
    k: int,
    x: int,
    left: int,
    right: int,
)
    requires
        0 <= d,
        -d <= k <= d,
        0 <= x,
        0 <= x - k,
        stopped(a, b, x, x - k),
        k > -d ==> furthest(a, b, d - 1, k - 1, left) && left + 1 <= x,
        k < d ==> furthest(a, b, d - 1, k + 1, right) && right <= x,
    ensures
        furthest(a, b, d, k, x),
{
    assert forall|p: int, q: int|
        0 <= p && 0 <= q && p - q == k && p + q - 2 * #[trigger] lcs_len(a, b, p, q)
            <= d implies p <= x by {
        lemma_furthest_point(a, b, d, k, x, left, right, p, q);
    }
}

/// Where a whole round has reached the end of neither sequence, more
/// edits are needed than the round had.
proof fn lemma_round_over(
    a: Seq<Seq<u8>>,
    b: Seq<Seq<u8>>,
    nodes: Seq<PathNode>,
    xs: Seq<usize>,
    heads: Seq<usize>,
    max: int,
    d: int,
)
    requires
        0 <= d,
        forall|t: int|
            0 <= t <= d ==> #[trigger] slot_ok(a, b, nodes, xs, heads, max, d, t) && !slot_final(
                a,
                b,
                xs,
                max,
                d,
                t,
            ),
        edit_distance(a, b, a.len() as int, b.len() as int) >= d,
    ensures
        edit_distance(a, b, a.len() as int, b.len() as int) >= d + 1,
{
    reveal(slot_ok);
    let n = a.len() as int;
    let m = b.len() as int;
    lemma_lcs_step(a, b, n, m);
    if edit_distance(a, b, n, m) == d {
        let t = n - lcs_len(a, b, n, m);
        assert(slot_ok(a, b, nodes, xs, heads, max, d, t));
        assert(2 * t - d == n - m);
        assert(n + m - 2 * lcs_len(a, b, n, m) <= d);
        assert(n <= xs[max + 2 * t - d]);
        assert(slot_final(a, b, xs, max, d, t));
    }
}

/// Length of the longest run of matching pairs from `(x, y)` on.
fn follow_snake(input: &DiffInput, x: usize, y: usize) -> (len: usize)
    requires
        input.wf(),
    ensures
        x + len <= input.a().len() || len == 0,
        y + len <= input.b().len() || len == 0,
        forall|p: int| x <= p < x + len ==> #[trigger] input.a()[p] == input.b()[p - x + y],
        stopped(input.a(), input.b(), x + len, y + len),
{
    let n = input.n();
    let m = input.m();
    let mut len: usize = 0;
    while x < n && y < m && len < n - x && len < m - y && tokens_equal(
        &input.removed,
        x + len,
        &input.added,
        y + len,
    )
        invariant
            input.wf(),
            n == input.a().len(),
            m == input.b().len(),
            n == input.removed.spans@.len(),
            m == input.added.spans@.len(),
            x + len <= n || len == 0,
            y + len <= m || len == 0,
            forall|p: int| x <= p < x + len ==> #[trigger] input.a()[p] == input.b()[p - x + y],
        decreases n - len,
    {
        len += 1;
    }
    len
}

/// Reverses the order of the snakes.
fn reverse_snakes(v: &mut Vec<Snake>)
    ensures
        final(v)@ == old(v)@.reverse(),
{
    let len = v.len();
    if len == 0 {
        assert(v@ =~= v@.reverse());
        return ;
    }
    let ghost before = v@;
    let mut i: usize = 0;
    let mut j: usize = len - 1;
    while i < j
        invariant
            len == before.len(),
            v@.len() == len,
            i + j == len - 1,
            i <= len,
            forall|q: int| 0 <= q < i ==> v@[q] == before[len - 1 - q],
            forall|q: int| j < q < len ==> v@[q] == before[len - 1 - q],
            forall|q: int| i <= q <= j ==> v@[q] == before[q],
        decreases len - i,
    {
        let lo = v[i];
        let hi = v[j];
        v.set(i, hi);
        v.set(j, lo);
        i += 1;
        j -= 1;
    }
    assert(v@ =~= before.reverse());
}

/// Writes the snakes of the path that ends in node `head` to `dst`, first
/// to last.
fn collect_path(nodes: &Vec<PathNode>, head: usize, dst: &mut Vec<Snake>)
    requires
        head <= nodes@.len(),
    ensures
        final(dst)@ == chain(nodes@, head as int),
{
    dst.clear();
    let mut h: usize = head;
    while h != 0 && nodes[h - 1].prev < h
        invariant
            h <= nodes@.len(),
            chain(nodes@, h as int) + dst@.reverse() == chain(nodes@, head as int),
        decreases h,
    {
        let node = nodes[h - 1];
        proof {
            let rest = chain(nodes@, node.prev as int);
            assert(dst@.push(node.snake).reverse() =~= seq![node.snake] + dst@.reverse());
            assert(rest + (seq![node.snake] + dst@.reverse()) =~= rest.push(node.snake)
                + dst@.reverse());
        }
        dst.push(node.snake);
        h = node.prev;
    }
    proof {
        assert(chain(nodes@, h as int) =~= Seq::<Snake>::empty());
        assert(chain(nodes@, h as int) + dst@.reverse() =~= dst@.reverse());
    }
    reverse_snakes(dst);
    proof {
        let r = chain(nodes@, head as int);
        assert(r.reverse().reverse() =~= r);
    }
}

/// Follows the snake from `(x, y)`, which the path that ends in node `head`
/// has reached with `d` edits, and records for diagonal slot `j` the point
/// where the snake ends and the path to it. Says whether that point lies
/// at or beyond the end of both sequences.
fn visit(
    input: &DiffInput,
    v: &mut DiffScratch,
    j: usize,
    x: usize,
    y: usize,
    head: usize,
    Ghost(d): Ghost<int>,
) -> (done: bool)
    requires
        input.wf(),
        j < old(v).xs@.len(),
        old(v).xs@.len() == old(v).heads@.len(),
        head <= old(v).nodes@.len(),
        path_ok(input.a(), input.b(), chain(old(v).nodes@, head as int), x as int, y as int, d),
    ensures
        final(v).nodes@.len() >= old(v).nodes@.len(),
        final(v).nodes@.subrange(0, old(v).nodes@.len() as int) == old(v).nodes@,
        final(v).xs@ == old(v).xs@.update(j as int, final(v).xs@[j as int]),
        final(v).heads@ == old(v).heads@.update(j as int, final(v).heads@[j as int]),
        final(v).heads@[j as int] <= final(v).nodes@.len(),
        x <= final(v).xs@[j as int],
        final(v).xs@[j as int] <= x || final(v).xs@[j as int] <= input.a().len(),
        path_ok(
            input.a(),
            input.b(),
            chain(final(v).nodes@, final(v).heads@[j as int] as int),
            final(v).xs@[j as int] as int,
            y + (final(v).xs@[j as int] - x),
            d,
        ),
        stopped(
            input.a(),
            input.b(),
            final(v).xs@[j as int] as int,
            y + (final(v).xs@[j as int] - x),
        ),
        done == (final(v).xs@[j as int] >= input.a().len() && y + (final(v).xs@[j as int] - x)
            >= input.b().len()),
{
    let n = input.n();
    let m = input.m();
    let len = follow_snake(input, x, y);
    let ghost nodes0 = v.nodes@;
    let ghost path0 = chain(nodes0, head as int);
    let mut new_head = head;
    if len > 0 {
        let snake = Snake { x0: x, y0: y, length: len };
        v.nodes.push(PathNode { snake, prev: head });
        new_head = v.nodes.len();
        proof {
            assert(v.nodes@.subrange(0, nodes0.len() as int) =~= nodes0);
            lemma_chain_extend(nodes0, v.nodes@, head as int);
            assert(chain(v.nodes@, new_head as int) == path0.push(snake));
            assert(snake_matches(input.a(), input.b(), snake));
            lemma_alignment_push(input.a(), input.b(), path0, snake);
            assert forall|k: int| 0 <= k < path0.push(snake).len() implies stopped(
                input.a(),
                input.b(),
                (#[trigger] path0.push(snake)[k]).x0 + path0.push(snake)[k].length,
                path0.push(snake)[k].y0 + path0.push(snake)[k].length,
            ) by {
                if k < path0.len() {
                    assert(path0.push(snake)[k] == path0[k]);
                }
            }
        }
    } else {
        proof {
            assert(v.nodes@.subrange(0, nodes0.len() as int) =~= nodes0);
        }
    }
    v.xs.set(j, x + len);
    v.heads.set(j, new_head);
    x + len >= n && y + len >= m
}

/// Where the point recorded for a diagonal lies at or beyond the end of
/// both sequences, and fewer edits do not suffice, the path to it is a
/// longest common subsequence.
proof fn lemma_done(
    a: Seq<Seq<u8>>,
    b: Seq<Seq<u8>>,
    nodes: Seq<PathNode>,
    xs: Seq<usize>,
    heads: Seq<usize>,
    max: int,
    d: int,
    t: int,
)
    requires
        slot_ok(a, b, nodes, xs, heads, max, d, t),
        slot_final(a, b, xs, max, d, t),
        edit_distance(a, b, a.len() as int, b.len() as int) >= d,
    ensures
        is_alignment(a, b, chain(nodes, heads[max + 2 * t - d] as int)),
        all_stopped(a, b, chain(nodes, heads[max + 2 * t - d] as int)),
        total_length(chain(nodes, heads[max + 2 * t - d] as int)) == lcs_len(
            a,
            b,
            a.len() as int,
            b.len() as int,
        ),
{
    reveal(slot_ok);
    let path = chain(nodes, heads[max + 2 * t - d] as int);
    assert forall|k: int| 0 <= k < path.len() implies (#[trigger] path[k]).x0 + path[k].length
        <= a.len() && path[k].y0 + path[k].length <= b.len() by {
        assert(snake_matches(a, b, path[k]));
    }
    lemma_alignment_bound(a, b, path, a.len() as int, b.len() as int);
}

/// One step from the better neighbour of round `d - 1` reaches diagonal
/// `2 * t - d` with `d` edits, along the neighbour's path.
proof fn lemma_start(
    a: Seq<Seq<u8>>,
    b: Seq<Seq<u8>>,
    nodes: Seq<PathNode>,
    xs: Seq<usize>,
    heads: Seq<usize>,
    max: int,
    d: int,
    t: int,
    down: bool,
)
    requires
        1 <= d <= max,
        0 <= t <= d,
        xs.len() == 2 * max + 1,
        heads.len() == 2 * max + 1,
        t >= 1 ==> slot_ok(a, b, nodes, xs, heads, max, d - 1, t - 1),
        t <= d - 1 ==> slot_ok(a, b, nodes, xs, heads, max, d - 1, t),
        down ==> t <= d - 1,
        !down ==> t >= 1,
    ensures
        ({
            let j = max - d + 2 * t;
            let k = 2 * t - d;
            let x = if down {
                xs[j + 1] as int
            } else {
                xs[j - 1] + 1
            };
            let head = if down {
                heads[j + 1]
            } else {
                heads[j - 1]
            };
            &&& head <= nodes.len()
            &&& x <= a.len() + d
            &&& x - k >= 0
            &&& x + max - j == x - k
            &&& path_ok(a, b, chain(nodes, head as int), x, x - k, d)
        }),
{
    reveal(slot_ok);
    let j = max - d + 2 * t;
    if down {
        assert(max + (2 * t - (d - 1)) == j + 1);
    } else {
        assert(max + (2 * (t - 1) - (d - 1)) == j - 1);
    }
}

/// Writing one slot of round `d` leaves the slots of round `d - 1` and the
/// earlier slots of round `d` as they are.
proof fn lemma_frames(
    a: Seq<Seq<u8>>,
    b: Seq<Seq<u8>>,
    nodes: Seq<PathNode>,
    xs: Seq<usize>,
    heads: Seq<usize>,
    more: Seq<PathNode>,
    xs2: Seq<usize>,
    heads2: Seq<usize>,
    max: int,
    d: int,
    t: int,
)
    requires
        1 <= d <= max,
        0 <= t <= d,
        xs.len() == 2 * max + 1,
        heads.len() == 2 * max + 1,
        nodes.len() <= more.len(),
        more.subrange(0, nodes.len() as int) == nodes,
        xs2 == xs.update(max - d + 2 * t, xs2[max - d + 2 * t]),
        heads2 == heads.update(max - d + 2 * t, heads2[max - d + 2 * t]),
        forall|s: int| 0 <= s <= d - 1 ==> #[trigger] slot_ok(a, b, nodes, xs, heads, max, d - 1, s),
        forall|s: int|
            0 <= s < t ==> #[trigger] slot_ok(a, b, nodes, xs, heads, max, d, s) && !slot_final(
                a,
                b,
                xs,
                max,
                d,
                s,
            ),
    ensures
        forall|s: int|
            0 <= s <= d - 1 ==> #[trigger] slot_ok(a, b, more, xs2, heads2, max, d - 1, s),
        forall|s: int|
            0 <= s < t ==> #[trigger] slot_ok(a, b, more, xs2, heads2, max, d, s) && !slot_final(
                a,
                b,
                xs2,
                max,
                d,
                s,
            ),
{
    assert forall|s: int| 0 <= s <= d - 1 implies #[trigger] slot_ok(
        a,
        b,
        more,
        xs2,
        heads2,
        max,
        d - 1,
        s,
    ) by {
        assert(slot_ok(a, b, nodes, xs, heads, max, d - 1, s));
        lemma_slot_frame(a, b, nodes, xs, heads, more, xs2, heads2, max, d - 1, s);
    }
    assert forall|s: int| 0 <= s < t implies #[trigger] slot_ok(
        a,
        b,
        more,
        xs2,
        heads2,
        max,
        d,
        s,
    ) && !slot_final(a, b, xs2, max, d, s) by {
        assert(slot_ok(a, b, nodes, xs, heads, max, d, s));
        lemma_slot_frame(a, b, nodes, xs, heads, more, xs2, heads2, max, d, s);
    }
}

/// The slot written for diagonal `2 * t - d` in round `d` is in order:
/// it was reached from the better of its two neighbours of round `d - 1`,
/// by one step and then along a snake to its end.
proof fn lemma_new_slot(
    a: Seq<Seq<u8>>,
    b: Seq<Seq<u8>>,
    nodes: Seq<PathNode>,
    xs: Seq<usize>,
    heads: Seq<usize>,
    more: Seq<PathNode>,
    xs2: Seq<usize>,
    heads2: Seq<usize>,
    max: int,
    d: int,
    t: int,
    down: bool,
)
    requires
        1 <= d <= max,
        0 <= t <= d,
        xs.len() == 2 * max + 1,
        heads.len() == 2 * max + 1,
        xs2.len() == 2 * max + 1,
        heads2.len() == 2 * max + 1,
        t >= 1 ==> slot_ok(a, b, nodes, xs, heads, max, d - 1, t - 1),
        t <= d - 1 ==> slot_ok(a, b, nodes, xs, heads, max, d - 1, t),
        down == (t == 0 || (t != d && xs[max - d + 2 * t - 1] < xs[max - d + 2 * t + 1])),
        heads2[max - d + 2 * t] <= more.len(),
        ({
            let j = max - d + 2 * t;
            let k = 2 * t - d;
            let x = if down {
                xs[j + 1] as int
            } else {
                xs[j - 1] + 1
            };
            let x1 = xs2[j] as int;
            &&& x <= x1
            &&& (x1 <= x || x1 <= a.len())
            &&& path_ok(a, b, chain(more, heads2[j] as int), x1, x1 - k, d)
            &&& stopped(a, b, x1, x1 - k)
        }),
    ensures
        slot_ok(a, b, more, xs2, heads2, max, d, t),
{
    reveal(slot_ok);
    let j = max - d + 2 * t;
    let k = 2 * t - d;
    let x1 = xs2[j] as int;
    let left = if t >= 1 {
        xs[j - 1] as int
    } else {
        0
    };
    let right = if t <= d - 1 {
        xs[j + 1] as int
    } else {
        0
    };
    if t >= 1 {
        assert(max + (2 * (t - 1) - (d - 1)) == j - 1);
        assert(furthest(a, b, d - 1, k - 1, left));
    }
    if t <= d - 1 {
        assert(max + (2 * t - (d - 1)) == j + 1);
        assert(furthest(a, b, d - 1, k + 1, right));
    }
    assert(x1 - k >= 0) by {
        if down {
            assert(xs[j + 1] - (k + 1) >= 0);
        } else {
            assert(xs[j - 1] - (k - 1) >= 0);
        }
    }
    lemma_furthest(a, b, d, k, x1, left, right);
}

/// Computes a longest common subsequence of the removed and the added
/// tokens, as the list of its snakes. What `dst` held before is dropped.
#[verifier::rlimit(40)]
pub fn diff(input: &DiffInput, v: &mut DiffScratch, dst: &mut Vec<Snake>)
    requires
        input.wf(),
        3 * (input.a().len() + input.b().len()) < usize::MAX,
    ensures
        is_alignment(input.a(), input.b(), final(dst)@),
        all_stopped(input.a(), input.b(), final(dst)@),
        total_length(final(dst)@) == lcs_len(
            input.a(),
            input.b(),
            input.a().len() as int,
            input.b().len() as int,
        ),
        forall|k: int, l: int|
            0 <= k < l < final(dst)@.len() ==> (#[trigger] final(dst)@[k]).x0 < (
            #[trigger] final(dst)@[l]).x0 && final(dst)@[k].y0 < final(dst)@[l].y0,
        forall|k: int|
            0 <= k < final(dst)@.len() ==> (#[trigger] final(dst)@[k]).x0 + final(dst)@[k].length
                <= input.a().len() && final(dst)@[k].y0 + final(dst)@[k].length
                <= input.b().len(),
{
    let n = input.n();
    let m = input.m();
    let max = n + m;
    let size = 2 * max + 1;
    let ghost a = input.a();
    let ghost b = input.b();
    v.nodes.clear();
    v.xs.clear();
    v.heads.clear();
    while v.xs.len() < size
        invariant
            v.xs@.len() == v.heads@.len(),
            v.xs@.len() <= size,
            v.nodes@.len() == 0,
        decreases size - v.xs@.len(),
    {
        v.xs.push(0);
        v.heads.push(0);
    }
    proof {
        assert(chain(v.nodes@, 0) =~= Seq::<Snake>::empty());
        lemma_lcs_step(a, b, n as int, m as int);
    }
    let done = visit(input, v, max, 0, 0, 0, Ghost(0));
    proof {
        lemma_furthest(a, b, 0, 0, v.xs@[max as int] as int, 0, 0);
        reveal(slot_ok);
        assert(slot_ok(a, b, v.nodes@, v.xs@, v.heads@, max as int, 0, 0));
    }
    if done {
        proof {
            lemma_done(a, b, v.nodes@, v.xs@, v.heads@, max as int, 0, 0);
        }
        collect_path(&v.nodes, v.heads[max], dst);
        proof {
            lemma_alignment_strict(a, b, dst@);
        }
        return ;
    }
    proof {
        assert forall|t: int| 0 <= t <= 0 implies #[trigger] slot_ok(
            a,
            b,
            v.nodes@,
            v.xs@,
            v.heads@,
            max as int,
            0,
            t,
        ) && !slot_final(a, b, v.xs@, max as int, 0, t) by {}
        lemma_round_over(a, b, v.nodes@, v.xs@, v.heads@, max as int, 0);
    }
    let mut d: usize = 1;
    while d <= max
        invariant
            input.wf(),
            a == input.a(),
            b == input.b(),
            n == a.len(),
            m == b.len(),
            max == n + m,
            3 * max < usize::MAX,
            v.xs@.len() == 2 * max + 1,
            v.heads@.len() == 2 * max + 1,
            1 <= d <= max + 1,
            forall|t: int|
                0 <= t <= d - 1 ==> #[trigger] slot_ok(
                    a,
                    b,
                    v.nodes@,
                    v.xs@,
                    v.heads@,
                    max as int,
                    d - 1,
                    t,
                ),
            edit_distance(a, b, n as int, m as int) >= d,
        decreases max + 1 - d,
    {
        let mut t: usize = 0;
        while t <= d
            invariant
                input.wf(),
                a == input.a(),
                b == input.b(),
                n == a.len(),
                m == b.len(),
                max == n + m,
                3 * max < usize::MAX,
                v.xs@.len() == 2 * max + 1,
                v.heads@.len() == 2 * max + 1,
                1 <= d <= max,
                0 <= t <= d + 1,
                forall|s: int|
                    0 <= s <= d - 1 ==> #[trigger] slot_ok(
                        a,
                        b,
                        v.nodes@,
                        v.xs@,
                        v.heads@,
                        max as int,
                        d - 1,
                        s,
                    ),
                forall|s: int|
                    0 <= s < t ==> #[trigger] slot_ok(
                        a,
                        b,
                        v.nodes@,
                        v.xs@,
                        v.heads@,
                        max as int,
                        d as int,
                        s,
                    ) && !slot_final(a, b, v.xs@, max as int, d as int, s),
                edit_distance(a, b, n as int, m as int) >= d,
            decreases d + 1 - t,
        {
            let j = max - d + 2 * t;
            let ghost k = 2 * t - d;
            let ghost nodes0 = v.nodes@;
            let ghost xs0 = v.xs@;
            let ghost heads0 = v.heads@;
            proof {
                if t >= 1 {
                    assert(slot_ok(a, b, nodes0, xs0, heads0, max as int, d - 1, t - 1));
                }
                if t <= d - 1 {
                    assert(slot_ok(a, b, nodes0, xs0, heads0, max as int, d - 1, t as int));
                }
            }
            let down = t == 0 || (t != d && v.xs[j - 1] < v.xs[j + 1]);
            proof {
                lemma_start(a, b, nodes0, xs0, heads0, max as int, d as int, t as int, down);
            }
            let x = if down {
                v.xs[j + 1]
            } else {
                v.xs[j - 1] + 1
            };
            let head = if down {
                v.heads[j + 1]
            } else {
                v.heads[j - 1]
            };
            let y = x + max - j;
            let done = visit(input, v, j, x, y, head, Ghost(d as int));
            proof {
                lemma_new_slot(
                    a,
                    b,
                    nodes0,
                    xs0,
                    heads0,
                    v.nodes@,
                    v.xs@,
                    v.heads@,
                    max as int,
                    d as int,
                    t as int,
                    down,
                );
                lemma_frames(
                    a,
                    b,
                    nodes0,
                    xs0,
                    heads0,
                    v.nodes@,
                    v.xs@,
                    v.heads@,
                    max as int,
                    d as int,
                    t as int,
                );
            }
            if done {
                proof {
                    lemma_done(a, b, v.nodes@, v.xs@, v.heads@, max as int, d as int, t as int);
                }
                collect_path(&v.nodes, v.heads[j], dst);
                proof {
                    lemma_alignment_strict(a, b, dst@);
                }
                return ;
            }
            proof {
                assert(v.xs@[j as int] + max - j == v.xs@[j as int] - k);
                assert(!slot_final(a, b, v.xs@, max as int, d as int, t as int));
                assert forall|s: int| 0 <= s < t + 1 implies #[trigger] slot_ok(
                    a,
                    b,
                    v.nodes@,
                    v.xs@,
                    v.heads@,
                    max as int,
                    d as int,
                    s,
                ) && !slot_final(a, b, v.xs@, max as int, d as int, s) by {}
            }
            t += 1;
        }
        proof {
            lemma_round_over(a, b, v.nodes@, v.xs@, v.heads@, max as int, d as int);
        }
        d += 1;
    }
    proof {
        lemma_lcs_step(a, b, n as int, m as int);
        assert(false);
    }
}

} // verus!

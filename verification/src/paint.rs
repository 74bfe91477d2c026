//! The painter: cuts a line into chunks, each with the face it is shown
//! in, by the shared byte intervals of the line's side.

use vstd::prelude::*;
use vstd::slice::{slice_subrange, slice_to_vec};
use crate::config::Face;
use crate::lines::NEWLINE;
use crate::normalize::as_ints;

verus! {

/// A stretch of output in one face. The line feed that ends it, if any, is
/// written after the colour has been reset.
#[derive(Clone, Debug, PartialEq, Eq)]
pub struct Chunk {
    pub face: Face,
    pub text: Vec<u8>,
    pub newline: bool,
}

/// What a chunk holds.
pub ghost struct ChunkView {
    pub face: Face,
    pub text: Seq<u8>,
    pub newline: bool,
}

impl View for Chunk {
    type V = ChunkView;

    open spec fn view(&self) -> ChunkView {
        ChunkView { face: self.face, text: self.text@, newline: self.newline }
    }
}

/// What the chunks hold, one by one.
pub open spec fn views(chunks: Seq<Chunk>) -> Seq<ChunkView> {
    Seq::new(chunks.len(), |i: int| chunks[i]@)
}

/// The bytes of a chunk, its line feed included.
pub open spec fn chunk_bytes(c: ChunkView) -> Seq<u8> {
    if c.newline {
        c.text.push(NEWLINE)
    } else {
        c.text
    }
}

/// The bytes of all chunks in a row: the output with its colours taken
/// away.
pub open spec fn flat_bytes(chunks: Seq<ChunkView>) -> Seq<u8>
    decreases chunks.len(),
{
    if chunks.len() == 0 {
        Seq::empty()
    } else {
        flat_bytes(chunks.drop_last()) + chunk_bytes(chunks.last())
    }
}

/// `b` is a space, a tab, a line feed, a form feed or a carriage return.
pub open spec fn is_ascii_space(b: u8) -> bool {
    b == 0x20 || b == 0x09 || b == 0x0a || b == 0x0c || b == 0x0d
}

/// The smaller of two integers.
pub open spec fn min_of(a: int, b: int) -> int {
    if a <= b {
        a
    } else {
        b
    }
}

/// The larger of two integers.
pub open spec fn max_of(a: int, b: int) -> int {
    if a >= b {
        a
    } else {
        b
    }
}

/// What writing `buf[from..to]` in `face` gives: nothing where the range
/// is empty, else one chunk, whose final line feed is kept apart. `to` is
/// cut to the length of `buf`.
pub open spec fn output_spec(buf: Seq<u8>, from: int, to: int, face: Face) -> Seq<ChunkView> {
    let end = min_of(to, buf.len() as int);
    if from < 0 || from >= end {
        Seq::empty()
    } else if buf[end - 1] == NEWLINE {
        seq![ChunkView { face, text: buf.subrange(from, end - 1), newline: true }]
    } else {
        seq![ChunkView { face, text: buf.subrange(from, end), newline: false }]
    }
}

/// First position from `pos` on, below `hi`, that holds no white space;
/// `hi` where there is none.
pub open spec fn indent_end(data: Seq<u8>, pos: int, hi: int) -> int
    decreases hi - pos,
{
    if 0 <= pos < hi && pos < data.len() && is_ascii_space(data[pos]) {
        indent_end(data, pos + 1, hi)
    } else {
        pos
    }
}

/// The chunks of the line's bytes from `y` to `hi`, and the first shared
/// interval that is not done with: bytes in a shared interval are shown
/// plainly, the others are highlighted. An interval that ends within the
/// line is done with; one that reaches beyond the line is kept for the next
/// line.
pub open spec fn paint_rest(
    data: Seq<u8>,
    hi: int,
    no_highlight: Face,
    highlight: Face,
    shared: Seq<(int, int)>,
    cursor: int,
    y: int,
) -> (Seq<ChunkView>, int)
    decreases shared.len() - cursor,
{
    if cursor < 0 || cursor >= shared.len() || y >= hi {
        (output_spec(data, y, hi, highlight), cursor)
    } else if shared[cursor].1 <= y {
        paint_rest(data, hi, no_highlight, highlight, shared, cursor + 1, y)
    } else {
        let lo = max_of(y, min_of(shared[cursor].0, hi));
        let end = max_of(lo, min_of(shared[cursor].1, hi));
        let here = output_spec(data, y, lo, highlight) + output_spec(data, lo, end, no_highlight);
        if hi < shared[cursor].1 {
            (here, cursor)
        } else {
            let rest = paint_rest(data, hi, no_highlight, highlight, shared, cursor + 1, end);
            (here + rest.0, rest.1)
        }
    }
}

/// The chunks of the line `data[lo..hi]`, and the first shared interval
/// that is not done with. The marker and the white space behind it are
/// shown plainly.
pub open spec fn paint_spec(
    data: Seq<u8>,
    lo: int,
    hi: int,
    no_highlight: Face,
    highlight: Face,
    shared: Seq<(int, int)>,
    cursor: int,
) -> (Seq<ChunkView>, int) {
    let y = indent_end(data, lo + 1, hi);
    let rest = paint_rest(data, hi, no_highlight, highlight, shared, cursor, y);
    (output_spec(data, lo, y, no_highlight) + rest.0, rest.1)
}

/// The bytes of chunks in a row are the bytes of the first ones and then
/// those of the others.
pub proof fn lemma_flat_concat(a: Seq<ChunkView>, b: Seq<ChunkView>)
    ensures
        flat_bytes(a + b) == flat_bytes(a) + flat_bytes(b),
    decreases b.len(),
{
    if b.len() == 0 {
        assert(a + b =~= a);
        assert(flat_bytes(a) + flat_bytes(b) =~= flat_bytes(a));
    } else {
        lemma_flat_concat(a, b.drop_last());
        assert((a + b).drop_last() =~= a + b.drop_last());
        assert((a + b).last() == b.last());
        assert(flat_bytes(a + b) =~= flat_bytes(a) + flat_bytes(b));
    }
}

/// The bytes of one chunk alone.
pub proof fn lemma_flat_single(c: ChunkView)
    ensures
        flat_bytes(seq![c]) == chunk_bytes(c),
{
    assert(seq![c].drop_last() =~= Seq::<ChunkView>::empty());
    assert(flat_bytes(seq![c].drop_last()) =~= Seq::<u8>::empty());
    assert(flat_bytes(seq![c]) =~= Seq::<u8>::empty() + chunk_bytes(c));
}

/// Writing a range gives the bytes of the range.
pub proof fn lemma_output_bytes(buf: Seq<u8>, from: int, to: int, face: Face)
    requires
        0 <= from <= to <= buf.len(),
    ensures
        flat_bytes(output_spec(buf, from, to, face)) == buf.subrange(from, to),
        output_spec(buf, from, to, face).len() <= 1,
        from < to ==> output_spec(buf, from, to, face).len() == 1 && output_spec(
            buf,
            from,
            to,
            face,
        )[0].face == face,
{
    let out = output_spec(buf, from, to, face);
    if from < to {
        assert(out =~= seq![out[0]]);
        lemma_flat_single(out[0]);
        assert(chunk_bytes(out[0]) =~= buf.subrange(from, to));
    } else {
        assert(flat_bytes(out) =~= buf.subrange(from, to));
    }
}

/// The indentation ends within the line.
pub proof fn lemma_indent_end(data: Seq<u8>, pos: int, hi: int)
    requires
        0 <= pos <= hi,
    ensures
        pos <= indent_end(data, pos, hi) <= hi,
    decreases hi - pos,
{
    if pos < hi && pos < data.len() && is_ascii_space(data[pos]) {
        lemma_indent_end(data, pos + 1, hi);
    }
}

/// The chunks of the rest of a line hold its bytes, and the intervals are
/// taken in order.
pub proof fn lemma_paint_rest_bytes(
    data: Seq<u8>,
    hi: int,
    no_highlight: Face,
    highlight: Face,
    shared: Seq<(int, int)>,
    cursor: int,
    y: int,
)
    requires
        0 <= y <= hi <= data.len(),
        0 <= cursor <= shared.len(),
    ensures
        flat_bytes(paint_rest(data, hi, no_highlight, highlight, shared, cursor, y).0)
            == data.subrange(y, hi),
        cursor <= paint_rest(data, hi, no_highlight, highlight, shared, cursor, y).1
            <= shared.len(),
    decreases shared.len() - cursor,
{
    if cursor >= shared.len() || y >= hi {
        lemma_output_bytes(data, y, hi, highlight);
    } else if shared[cursor].1 <= y {
        lemma_paint_rest_bytes(data, hi, no_highlight, highlight, shared, cursor + 1, y);
    } else {
        let lo = max_of(y, min_of(shared[cursor].0, hi));
        let end = max_of(lo, min_of(shared[cursor].1, hi));
        let first = output_spec(data, y, lo, highlight);
        let second = output_spec(data, lo, end, no_highlight);
        lemma_output_bytes(data, y, lo, highlight);
        lemma_output_bytes(data, lo, end, no_highlight);
        lemma_flat_concat(first, second);
        assert(data.subrange(y, lo) + data.subrange(lo, end) =~= data.subrange(y, end));
        if hi < shared[cursor].1 {
        } else {
            let rest = paint_rest(data, hi, no_highlight, highlight, shared, cursor + 1, end);
            lemma_paint_rest_bytes(data, hi, no_highlight, highlight, shared, cursor + 1, end);
            lemma_flat_concat(first + second, rest.0);
            assert(data.subrange(y, end) + data.subrange(end, hi) =~= data.subrange(y, hi));
        }
    }
}

/// With their colours taken away, the chunks of a line are the line.
pub proof fn lemma_paint_bytes(
    data: Seq<u8>,
    lo: int,
    hi: int,
    no_highlight: Face,
    highlight: Face,
    shared: Seq<(int, int)>,
    cursor: int,
)
    requires
        0 <= lo < hi <= data.len(),
        0 <= cursor <= shared.len(),
    ensures
        flat_bytes(paint_spec(data, lo, hi, no_highlight, highlight, shared, cursor).0)
            == data.subrange(lo, hi),
        cursor <= paint_spec(data, lo, hi, no_highlight, highlight, shared, cursor).1
            <= shared.len(),
{
    let y = indent_end(data, lo + 1, hi);
    lemma_indent_end(data, lo + 1, hi);
    let head = output_spec(data, lo, y, no_highlight);
    let rest = paint_rest(data, hi, no_highlight, highlight, shared, cursor, y);
    lemma_output_bytes(data, lo, y, no_highlight);
    lemma_paint_rest_bytes(data, hi, no_highlight, highlight, shared, cursor, y);
    lemma_flat_concat(head, rest.0);
    assert(data.subrange(lo, y) + data.subrange(y, hi) =~= data.subrange(lo, hi));
}

/// The first chunk of a painted line is shown plainly and begins with the
/// line's first byte, its marker.
pub proof fn lemma_paint_marker(
    data: Seq<u8>,
    lo: int,
    hi: int,
    no_highlight: Face,
    highlight: Face,
    shared: Seq<(int, int)>,
    cursor: int,
)
    requires
        0 <= lo < hi <= data.len(),
    ensures
        paint_spec(data, lo, hi, no_highlight, highlight, shared, cursor).0.len() > 0,
        paint_spec(data, lo, hi, no_highlight, highlight, shared, cursor).0[0].face
            == no_highlight,
        chunk_bytes(paint_spec(data, lo, hi, no_highlight, highlight, shared, cursor).0[0])[0]
            == data[lo],
{
    let y = indent_end(data, lo + 1, hi);
    lemma_indent_end(data, lo + 1, hi);
    let head = output_spec(data, lo, y, no_highlight);
    let rest = paint_rest(data, hi, no_highlight, highlight, shared, cursor, y);
    lemma_output_bytes(data, lo, y, no_highlight);
    assert((head + rest.0)[0] == head[0]);
    assert(head =~= seq![head[0]]);
    lemma_flat_single(head[0]);
    assert(data.subrange(lo, y)[0] == data[lo]);
}

/// Whether `b` is ASCII white space.
pub fn is_space(b: u8) -> (yes: bool)
    ensures
        yes == is_ascii_space(b),
{
    b == 0x20 || b == 0x09 || b == 0x0a || b == 0x0c || b == 0x0d
}

/// Appends to `out` the chunk for `buf[from..to]` in the given face. An
/// empty range gives no chunk.
pub fn output(buf: &[u8], from: usize, to: usize, face: &Face, out: &mut Vec<Chunk>)
    ensures
        views(final(out)@) == views(old(out)@) + output_spec(buf@, from as int, to as int, *face),
{
    let to = if to < buf.len() {
        to
    } else {
        buf.len()
    };
    if from >= to {
        assert(views(out@) + Seq::<ChunkView>::empty() =~= views(out@));
        return ;
    }
    let ends_with_newline = buf[to - 1] == NEWLINE;
    let end = if ends_with_newline {
        to - 1
    } else {
        to
    };
    let text = slice_to_vec(slice_subrange(buf, from, end));
    let chunk = Chunk { face: *face, text, newline: ends_with_newline };
    let ghost before = out@;
    out.push(chunk);
    proof {
        assert(views(out@) =~= views(before) + seq![chunk@]);
    }
}

/// Appends to `out` the chunks of the line `data[range.0..range.1]`, and
/// moves `cursor` to the first interval of `shared` that is not done with.
#[verifier::rlimit(40)]
pub fn paint_line(
    data: &[u8],
    range: (usize, usize),
    no_highlight: &Face,
    highlight: &Face,
    shared: &Vec<(usize, usize)>,
    cursor: &mut usize,
    out: &mut Vec<Chunk>,
)
    requires
        range.0 < range.1 <= data@.len(),
        *old(cursor) <= shared@.len(),
    ensures
        views(final(out)@) == views(old(out)@) + paint_spec(
            data@,
            range.0 as int,
            range.1 as int,
            *no_highlight,
            *highlight,
            as_ints(shared@),
            *old(cursor) as int,
        ).0,
        *final(cursor) == paint_spec(
            data@,
            range.0 as int,
            range.1 as int,
            *no_highlight,
            *highlight,
            as_ints(shared@),
            *old(cursor) as int,
        ).1,
        *final(cursor) <= shared@.len(),
{
    let data_lo = range.0;
    let data_hi = range.1;
    let ghost sh = as_ints(shared@);
    let ghost start_views = views(out@);
    let ghost start_cursor = *cursor as int;
    let mut y: usize = data_lo + 1;
    while y < data_hi && is_space(data[y])
        invariant
            data_lo < y <= data_hi <= data@.len(),
            indent_end(data@, y as int, data_hi as int) == indent_end(
                data@,
                data_lo + 1,
                data_hi as int,
            ),
        decreases data_hi - y,
    {
        y += 1;
    }
    let ghost y0 = y as int;
    output(data, data_lo, y, no_highlight, out);
    let ghost head = output_spec(data@, data_lo as int, y0, *no_highlight);
    let ghost full = paint_rest(data@, data_hi as int, *no_highlight, *highlight, sh, start_cursor, y0);
    let ghost done = Seq::<ChunkView>::empty();
    proof {
        assert(done + full.0 =~= full.0);
        assert(views(out@) =~= start_views + head + done);
    }
    let count = shared.len();
    loop
        invariant_except_break
            views(out@) == start_views + head + done,
            done + paint_rest(
                data@,
                data_hi as int,
                *no_highlight,
                *highlight,
                sh,
                *cursor as int,
                y as int,
            ).0 == full.0,
            paint_rest(
                data@,
                data_hi as int,
                *no_highlight,
                *highlight,
                sh,
                *cursor as int,
                y as int,
            ).1 == full.1,
        invariant
            count == shared@.len(),
            sh == as_ints(shared@),
            data_lo < y <= data_hi <= data@.len(),
            *cursor <= count,
        ensures
            count == shared@.len(),
            *cursor <= count,
            views(out@) == start_views + head + full.0,
            *cursor == full.1,
        decreases count - *cursor,
    {
        if *cursor >= count || y >= data_hi {
            let ghost before = views(out@);
            output(data, y, data_hi, highlight, out);
            proof {
                let last = output_spec(data@, y as int, data_hi as int, *highlight);
                assert(start_views + head + done + last =~= start_views + head + (done + last));
            }
            break ;
        }
        let interval = shared[*cursor];
        proof {
            assert(sh[*cursor as int] == (interval.0 as int, interval.1 as int));
        }
        if interval.1 <= y {
            *cursor += 1;
            continue ;
        }
        let lo_cut = if interval.0 < data_hi {
            interval.0
        } else {
            data_hi
        };
        let lo = if lo_cut > y {
            lo_cut
        } else {
            y
        };
        let hi_cut = if interval.1 < data_hi {
            interval.1
        } else {
            data_hi
        };
        let end = if hi_cut > lo {
            hi_cut
        } else {
            lo
        };
        output(data, y, lo, highlight, out);
        output(data, lo, end, no_highlight, out);
        let ghost here = output_spec(data@, y as int, lo as int, *highlight) + output_spec(
            data@,
            lo as int,
            end as int,
            *no_highlight,
        );
        proof {
            assert(lo == max_of(y as int, min_of(interval.0 as int, data_hi as int)));
            assert(end == max_of(lo as int, min_of(interval.1 as int, data_hi as int)));
            assert(views(out@) =~= start_views + head + (done + here));
        }
        if data_hi < interval.1 {
            proof {
                done = done + here;
            }
            break ;
        }
        proof {
            let rest = paint_rest(
                data@,
                data_hi as int,
                *no_highlight,
                *highlight,
                sh,
                *cursor + 1,
                end as int,
            );
            assert((done + here) + rest.0 =~= done + (here + rest.0));
            done = done + here;
        }
        y = end;
        *cursor += 1;
    }
    proof {
        assert(start_views + head + full.0 =~= start_views + (head + full.0));
    }
}

} // verus!

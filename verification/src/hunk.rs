//! The hunk buffer: the lines of one hunk with their tokens, and the
//! refinement of the hunk into coloured chunks.

use vstd::prelude::*;
use crate::config::{plain_face, AppConfig, Face};
use crate::lcs::lcs_len;
use crate::lines::{
    add_raw_line,
    lemma_line_ranges,
    lemma_stripped_len,
    line_ranges,
    stripped,
    LineSplit,
};
use crate::myers::{diff, DiffInput, DiffScratch};
use crate::normalize::{
    as_ints,
    lemma_alignment_tokens,
    lemma_merged_runs,
    lemma_merged_tokens,
    lemma_normalized_tokens,
    merged_runs,
    normalized,
    optimize_partition,
    segments_of,
    shared_runs,
    shared_tokens,
    snakes_ordered,
};
use crate::paint::{
    chunk_bytes,
    flat_bytes,
    indent_end,
    is_space,
    lemma_flat_concat,
    lemma_output_bytes,
    lemma_paint_bytes,
    lemma_paint_marker,
    output,
    output_spec,
    paint_line,
    paint_spec,
    views,
    Chunk,
    ChunkView,
};
use crate::snake::{is_alignment, snake_matches, total_length, Snake};
use crate::stats::{duration_ms_since, now, timers_advanced, ExecStats, Timer};
use crate::token::{
    extents_of,
    lemma_spans_ok_extend,
    lemma_token_extents,
    span_ok,
    spans_ok,
    token_extents,
    tokenize,
    tokens_of,
    HashedSpan,
    Tokenization,
};

verus! {

/// The marker of an added line.
pub const PLUS: u8 = 0x2b;

/// The marker of a removed line.
pub const MINUS: u8 = 0x2d;

/// The tokens of the line that begins at `line_start`, the last line of
/// `data`: its marker and the white space behind it are left out.
pub open spec fn line_tokens(data: Seq<u8>, line_start: int) -> Seq<(int, int)> {
    token_extents(data, indent_end(data, line_start + 1, data.len() as int))
}

/// The tokens of the new last line of `data` have been put behind those of
/// `before`.
pub open spec fn tokens_pushed(
    before: Seq<HashedSpan>,
    after: Seq<HashedSpan>,
    data: Seq<u8>,
    line_start: int,
) -> bool {
    &&& after.len() >= before.len()
    &&& after.subrange(0, before.len() as int) == before
    &&& extents_of(after.subrange(before.len() as int, after.len() as int)) == line_tokens(
        data,
        line_start,
    )
}

/// The shared byte intervals of one side of a hunk.
pub open spec fn side_segments(
    data: Seq<u8>,
    spans: Seq<HashedSpan>,
    snakes: Seq<Snake>,
    added: bool,
) -> Seq<(int, int)> {
    segments_of(data, spans, normalized(data, spans, merged_runs(snakes, added)))
}

/// The chunks of the lines from line `i` on: an added or a removed line is
/// painted by the shared intervals of its side, and any other line is kept
/// as it is.
pub open spec fn render(
    data: Seq<u8>,
    lines: Seq<(int, int)>,
    config: AppConfig,
    shared_added: Seq<(int, int)>,
    shared_removed: Seq<(int, int)>,
    i: int,
    cursor_added: int,
    cursor_removed: int,
) -> Seq<ChunkView>
    decreases lines.len() - i,
{
    if i < 0 || i >= lines.len() {
        Seq::empty()
    } else if data[lines[i].0] == PLUS {
        let line = paint_spec(
            data,
            lines[i].0,
            lines[i].1,
            config.added_face,
            config.refine_added_face,
            shared_added,
            cursor_added,
        );
        line.0 + render(
            data,
            lines,
            config,
            shared_added,
            shared_removed,
            i + 1,
            line.1,
            cursor_removed,
        )
    } else if data[lines[i].0] == MINUS {
        let line = paint_spec(
            data,
            lines[i].0,
            lines[i].1,
            config.removed_face,
            config.refine_removed_face,
            shared_removed,
            cursor_removed,
        );
        line.0 + render(
            data,
            lines,
            config,
            shared_added,
            shared_removed,
            i + 1,
            cursor_added,
            line.1,
        )
    } else {
        output_spec(data, lines[i].0, lines[i].1, plain_face()) + render(
            data,
            lines,
            config,
            shared_added,
            shared_removed,
            i + 1,
            cursor_added,
            cursor_removed,
        )
    }
}

/// The chunks of a hunk whose common subsequence is `snakes`.
pub open spec fn hunk_chunks(
    data: Seq<u8>,
    added: Seq<HashedSpan>,
    removed: Seq<HashedSpan>,
    config: AppConfig,
    snakes: Seq<Snake>,
) -> Seq<ChunkView> {
    render(
        data,
        line_ranges(data),
        config,
        side_segments(data, added, snakes, true),
        side_segments(data, removed, snakes, false),
        0,
        0,
        0,
    )
}

/// The chunks of the lines from line `i` on hold the bytes of these lines.
pub proof fn lemma_render_bytes(
    data: Seq<u8>,
    config: AppConfig,
    shared_added: Seq<(int, int)>,
    shared_removed: Seq<(int, int)>,
    i: int,
    cursor_added: int,
    cursor_removed: int,
)
    requires
        0 <= i <= line_ranges(data).len(),
        0 <= cursor_added <= shared_added.len(),
        0 <= cursor_removed <= shared_removed.len(),
    ensures
        flat_bytes(
            render(
                data,
                line_ranges(data),
                config,
                shared_added,
                shared_removed,
                i,
                cursor_added,
                cursor_removed,
            ),
        ) == data.subrange(
            if i < line_ranges(data).len() {
                line_ranges(data)[i].0
            } else {
                data.len() as int
            },
            data.len() as int,
        ),
    decreases line_ranges(data).len() - i,
{
    let lines = line_ranges(data);
    lemma_line_ranges(data);
    if i >= lines.len() {
        assert(flat_bytes(Seq::<ChunkView>::empty()) =~= data.subrange(
            data.len() as int,
            data.len() as int,
        ));
    } else {
        let lo = lines[i].0;
        let hi = lines[i].1;
        let next = if i + 1 < lines.len() {
            lines[i + 1].0
        } else {
            data.len() as int
        };
        assert(next == hi);
        assert(data.subrange(lo, hi) + data.subrange(hi, data.len() as int) =~= data.subrange(
            lo,
            data.len() as int,
        ));
        if data[lo] == PLUS {
            let line = paint_spec(
                data,
                lo,
                hi,
                config.added_face,
                config.refine_added_face,
                shared_added,
                cursor_added,
            );
            lemma_paint_bytes(
                data,
                lo,
                hi,
                config.added_face,
                config.refine_added_face,
                shared_added,
                cursor_added,
            );
            lemma_render_bytes(
                data,
                config,
                shared_added,
                shared_removed,
                i + 1,
                line.1,
                cursor_removed,
            );
            lemma_flat_concat(
                line.0,
                render(data, lines, config, shared_added, shared_removed, i + 1, line.1, cursor_removed),
            );
        } else if data[lo] == MINUS {
            let line = paint_spec(
                data,
                lo,
                hi,
                config.removed_face,
                config.refine_removed_face,
                shared_removed,
                cursor_removed,
            );
            lemma_paint_bytes(
                data,
                lo,
                hi,
                config.removed_face,
                config.refine_removed_face,
                shared_removed,
                cursor_removed,
            );
            lemma_render_bytes(
                data,
                config,
                shared_added,
                shared_removed,
                i + 1,
                cursor_added,
                line.1,
            );
            lemma_flat_concat(
                line.0,
                render(data, lines, config, shared_added, shared_removed, i + 1, cursor_added, line.1),
            );
        } else {
            lemma_output_bytes(data, lo, hi, plain_face());
            lemma_render_bytes(
                data,
                config,
                shared_added,
                shared_removed,
                i + 1,
                cursor_added,
                cursor_removed,
            );
            lemma_flat_concat(
                output_spec(data, lo, hi, plain_face()),
                render(
                    data,
                    lines,
                    config,
                    shared_added,
                    shared_removed,
                    i + 1,
                    cursor_added,
                    cursor_removed,
                ),
            );
        }
    }
}

/// What a hunk gives out for an added or a removed line begins with a
/// chunk in the plain face of the line's side, and that chunk begins with
/// the line's marker.
pub proof fn lemma_render_marker(
    data: Seq<u8>,
    config: AppConfig,
    shared_added: Seq<(int, int)>,
    shared_removed: Seq<(int, int)>,
    i: int,
    cursor_added: int,
    cursor_removed: int,
)
    requires
        0 <= i < line_ranges(data).len(),
        data[line_ranges(data)[i].0] == PLUS || data[line_ranges(data)[i].0] == MINUS,
    ensures
        ({
            let chunks = render(
                data,
                line_ranges(data),
                config,
                shared_added,
                shared_removed,
                i,
                cursor_added,
                cursor_removed,
            );
            &&& chunks.len() > 0
            &&& chunks[0].face == (if data[line_ranges(data)[i].0] == PLUS {
                config.added_face
            } else {
                config.removed_face
            })
            &&& chunk_bytes(chunks[0])[0] == data[line_ranges(data)[i].0]
        }),
{
    let lines = line_ranges(data);
    lemma_line_ranges(data);
    let lo = lines[i].0;
    let hi = lines[i].1;
    if data[lo] == PLUS {
        lemma_paint_marker(
            data,
            lo,
            hi,
            config.added_face,
            config.refine_added_face,
            shared_added,
            cursor_added,
        );
    } else {
        lemma_paint_marker(
            data,
            lo,
            hi,
            config.removed_face,
            config.refine_removed_face,
            shared_removed,
            cursor_removed,
        );
    }
}

/// With its colours taken away, the output of a hunk is the hunk's lines
/// without their escape sequences, in the order in which they came.
pub proof fn lemma_hunk_bytes(
    data: Seq<u8>,
    added: Seq<HashedSpan>,
    removed: Seq<HashedSpan>,
    config: AppConfig,
    snakes: Seq<Snake>,
)
    ensures
        flat_bytes(hunk_chunks(data, added, removed, config, snakes)) == data,
{
    lemma_line_ranges(data);
    lemma_render_bytes(
        data,
        config,
        side_segments(data, added, snakes, true),
        side_segments(data, removed, snakes, false),
        0,
        0,
        0,
    );
    assert(data.subrange(0, data.len() as int) =~= data);
    if data.len() == 0 {
        assert(data.subrange(data.len() as int, data.len() as int) =~= data);
    }
}

/// What the store holds after the lines have been stored one by one: each
/// of them without its escape sequences, in the order in which they came.
pub open spec fn stripped_all(lines: Seq<Seq<u8>>) -> Seq<u8>
    decreases lines.len(),
{
    if lines.len() == 0 {
        Seq::empty()
    } else {
        stripped_all(lines.drop_last()) + stripped(lines.last())
    }
}

/// Whatever the tokens, the faces and the common subsequence: with its
/// colours taken away, the output of the hunk that was made of `lines` is
/// these lines without their escape sequences, one behind the other.
pub proof fn lemma_hunk_conserved(
    lines: Seq<Seq<u8>>,
    added: Seq<HashedSpan>,
    removed: Seq<HashedSpan>,
    config: AppConfig,
    snakes: Seq<Snake>,
)
    ensures
        flat_bytes(hunk_chunks(stripped_all(lines), added, removed, config, snakes))
            == stripped_all(lines),
{
    lemma_hunk_bytes(stripped_all(lines), added, removed, config, snakes);
}

/// After normalization as before it, the two sides of a hunk share the
/// same tokens: what is shown plainly on the removed side is, token for
/// token, what is shown plainly on the added side.
pub proof fn lemma_sides_agree(
    data: Seq<u8>,
    added: Seq<HashedSpan>,
    removed: Seq<HashedSpan>,
    snakes: Seq<Snake>,
)
    requires
        is_alignment(tokens_of(data, removed), tokens_of(data, added), snakes),
    ensures
        shared_tokens(
            tokens_of(data, removed),
            normalized(data, removed, merged_runs(snakes, false)),
        ) == shared_tokens(
            tokens_of(data, added),
            normalized(data, added, merged_runs(snakes, true)),
        ),
{
    let a = tokens_of(data, removed);
    let b = tokens_of(data, added);
    lemma_alignment_ordered(a, b, snakes);
    lemma_merged_runs(snakes, false, a.len() as int, b.len() as int);
    lemma_merged_runs(snakes, true, a.len() as int, b.len() as int);
    lemma_normalized_tokens(data, removed, merged_runs(snakes, false));
    lemma_normalized_tokens(data, added, merged_runs(snakes, true));
    lemma_merged_tokens(a, snakes, false, a.len() as int, b.len() as int);
    lemma_merged_tokens(b, snakes, true, a.len() as int, b.len() as int);
    lemma_alignment_tokens(a, b, snakes);
}

/// An alignment is an ordered list of snakes.
pub proof fn lemma_alignment_ordered(a: Seq<Seq<u8>>, b: Seq<Seq<u8>>, snakes: Seq<Snake>)
    requires
        is_alignment(a, b, snakes),
    ensures
        snakes_ordered(snakes, a.len() as int, b.len() as int),
{
    assert forall|k: int| 0 <= k < snakes.len() implies 0 < (#[trigger] snakes[k]).length
        && snakes[k].x0 + snakes[k].length <= a.len() && snakes[k].y0 + snakes[k].length
        <= b.len() by {
        assert(snake_matches(a, b, snakes[k]));
    }
}

/// The lines of one hunk, the tokens of its added and of its removed
/// lines, and what is kept between hunks to save allocations.
pub struct HunkBuffer {
    pub v: DiffScratch,
    pub diff_buffer: Vec<Snake>,
    pub added_tokens: Vec<HashedSpan>,
    pub removed_tokens: Vec<HashedSpan>,
    pub lines: LineSplit,
    pub config: AppConfig,
    pub stats: ExecStats,
}

impl HunkBuffer {
    /// The tokens fit the stored bytes, there are no more tokens than
    /// bytes, and the bytes are few enough for the comparison's indices.
    pub open spec fn wf(&self) -> bool {
        &&& self.lines.wf()
        &&& spans_ok(self.lines.data@, self.added_tokens@)
        &&& spans_ok(self.lines.data@, self.removed_tokens@)
        &&& self.added_tokens@.len() + self.removed_tokens@.len() <= self.lines.data@.len()
        &&& 3 * self.lines.data@.len() < usize::MAX
    }

    /// An empty buffer. Timings are taken where `config.debug` is set.
    pub fn new(config: AppConfig) -> (buffer: Self)
        ensures
            buffer.wf(),
            buffer.config == config,
            buffer.lines.data@.len() == 0,
            buffer.added_tokens@.len() == 0,
            buffer.removed_tokens@.len() == 0,
            buffer.stats.program_start.is_some() == config.debug,
    {
        let debug = config.debug;
        HunkBuffer {
            v: DiffScratch::new(),
            diff_buffer: Vec::new(),
            added_tokens: Vec::new(),
            removed_tokens: Vec::new(),
            lines: LineSplit::new(),
            config,
            stats: ExecStats::new(debug),
        }
    }

    /// Stores an added line and its tokens.
    pub fn push_added(&mut self, line: &[u8])
        requires
            old(self).wf(),
            3 * (old(self).lines.data@.len() + line@.len()) < usize::MAX,
        ensures
            final(self).wf(),
            final(self).config == old(self).config,
            final(self).stats == old(self).stats,
            final(self).lines.data@ == old(self).lines.data@ + stripped(line@),
            final(self).removed_tokens@ == old(self).removed_tokens@,
            tokens_pushed(
                old(self).added_tokens@,
                final(self).added_tokens@,
                final(self).lines.data@,
                old(self).lines.data@.len() as int,
            ),
    {
        self.push_aux(line, true)
    }

    /// Stores a removed line and its tokens.
    pub fn push_removed(&mut self, line: &[u8])
        requires
            old(self).wf(),
            3 * (old(self).lines.data@.len() + line@.len()) < usize::MAX,
        ensures
            final(self).wf(),
            final(self).config == old(self).config,
            final(self).stats == old(self).stats,
            final(self).lines.data@ == old(self).lines.data@ + stripped(line@),
            final(self).added_tokens@ == old(self).added_tokens@,
            tokens_pushed(
                old(self).removed_tokens@,
                final(self).removed_tokens@,
                final(self).lines.data@,
                old(self).lines.data@.len() as int,
            ),
    {
        self.push_aux(line, false)
    }

    /// Stores a line of context, which has no tokens.
    pub fn append_context(&mut self, line: &[u8])
        requires
            old(self).wf(),
            3 * (old(self).lines.data@.len() + line@.len()) < usize::MAX,
        ensures
            final(self).wf(),
            final(self).config == old(self).config,
            final(self).stats == old(self).stats,
            final(self).lines.data@ == old(self).lines.data@ + stripped(line@),
            final(self).added_tokens@ == old(self).added_tokens@,
            final(self).removed_tokens@ == old(self).removed_tokens@,
    {
        proof {
            lemma_stripped_len(line@);
            lemma_spans_ok_extend(self.lines.data@, stripped(line@), self.added_tokens@);
            lemma_spans_ok_extend(self.lines.data@, stripped(line@), self.removed_tokens@);
        }
        add_raw_line(&mut self.lines, line);
    }

    /// Stores a line and appends its tokens to those of its side.
    #[verifier::rlimit(40)]
    pub fn push_aux(&mut self, line: &[u8], added: bool)
        requires
            old(self).wf(),
            3 * (old(self).lines.data@.len() + line@.len()) < usize::MAX,
        ensures
            final(self).wf(),
            final(self).config == old(self).config,
            final(self).stats == old(self).stats,
            final(self).lines.data@ == old(self).lines.data@ + stripped(line@),
            added ==> final(self).removed_tokens@ == old(self).removed_tokens@,
            !added ==> final(self).added_tokens@ == old(self).added_tokens@,
            tokens_pushed(
                if added {
                    old(self).added_tokens@
                } else {
                    old(self).removed_tokens@
                },
                if added {
                    final(self).added_tokens@
                } else {
                    final(self).removed_tokens@
                },
                final(self).lines.data@,
                old(self).lines.data@.len() as int,
            ),
    {
        let start = self.lines.len();
        let ghost data0 = self.lines.data@;
        proof {
            lemma_stripped_len(line@);
            lemma_spans_ok_extend(data0, stripped(line@), self.added_tokens@);
            lemma_spans_ok_extend(data0, stripped(line@), self.removed_tokens@);
        }
        add_raw_line(&mut self.lines, line);
        let total = self.lines.len();
        let data = self.lines.data();
        let mut ofs: usize = start + 1;
        while ofs < total && is_space(data[ofs])
            invariant
                total == data@.len(),
                start < ofs,
                indent_end(data@, ofs as int, total as int) == indent_end(
                    data@,
                    start + 1,
                    total as int,
                ),
            decreases total - ofs,
        {
            ofs += 1;
        }
        proof {
            lemma_token_extents(data@, ofs as int);
        }
        if added {
            let ghost before = self.added_tokens@;
            tokenize(data, ofs, &mut self.added_tokens);
            proof {
                lemma_new_tokens(data0, stripped(line@), before, self.added_tokens@, ofs as int);
            }
        } else {
            let ghost before = self.removed_tokens@;
            tokenize(data, ofs, &mut self.removed_tokens);
            proof {
                lemma_new_tokens(data0, stripped(line@), before, self.removed_tokens@, ofs as int);
            }
        }
    }

    /// Refines the hunk and appends its chunks to `out`: computes a longest
    /// common subsequence of the removed and the added tokens, normalizes
    /// it on either side, and paints every line. The hunk is then dropped;
    /// the snakes stay in `diff_buffer`.
    #[verifier::rlimit(40)]
    pub fn process(&mut self, out: &mut Vec<Chunk>)
        requires
            old(self).wf(),
        ensures
            final(self).wf(),
            final(self).config == old(self).config,
            timers_advanced(old(self).stats, final(self).stats),
            final(self).lines.data@.len() == 0,
            final(self).added_tokens@.len() == 0,
            final(self).removed_tokens@.len() == 0,
            is_alignment(
                tokens_of(old(self).lines.data@, old(self).removed_tokens@),
                tokens_of(old(self).lines.data@, old(self).added_tokens@),
                final(self).diff_buffer@,
            ),
            total_length(final(self).diff_buffer@) == lcs_len(
                tokens_of(old(self).lines.data@, old(self).removed_tokens@),
                tokens_of(old(self).lines.data@, old(self).added_tokens@),
                old(self).removed_tokens@.len() as int,
                old(self).added_tokens@.len() as int,
            ),
            views(final(out)@) == views(old(out)@) + hunk_chunks(
                old(self).lines.data@,
                old(self).added_tokens@,
                old(self).removed_tokens@,
                old(self).config,
                final(self).diff_buffer@,
            ),
    {
        let data = self.lines.data();
        let tokens = DiffInput {
            removed: Tokenization::new(data, self.removed_tokens.as_slice()),
            added: Tokenization::new(data, self.added_tokens.as_slice()),
        };
        let start = now(self.stats.do_timings());
        diff(&tokens, &mut self.v, &mut self.diff_buffer);
        proof {
            lemma_alignment_ordered(tokens.a(), tokens.b(), self.diff_buffer@);
            lemma_merged_runs(
                self.diff_buffer@,
                true,
                tokens.a().len() as int,
                tokens.b().len() as int,
            );
            lemma_merged_runs(
                self.diff_buffer@,
                false,
                tokens.a().len() as int,
                tokens.b().len() as int,
            );
        }
        let runs_added = shared_runs(&self.diff_buffer, true);
        let runs_removed = shared_runs(&self.diff_buffer, false);
        self.stats.record(Timer::ComputeLcs, duration_ms_since(&start));
        let start = now(self.stats.do_timings());
        let normalized_added = optimize_partition(&tokens.added, &runs_added);
        let normalized_removed = optimize_partition(&tokens.removed, &runs_removed);
        self.stats.record(Timer::OptimizeLcs, duration_ms_since(&start));
        let shared_added = normalized_added.shared_segments(&tokens.added);
        let shared_removed = normalized_removed.shared_segments(&tokens.removed);
        let mut cursor_added: usize = 0;
        let mut cursor_removed: usize = 0;
        let ranges = self.lines.iter();
        let plain = Face::plain();
        let ghost lines = line_ranges(data@);
        let ghost full = hunk_chunks(
            data@,
            self.added_tokens@,
            self.removed_tokens@,
            self.config,
            self.diff_buffer@,
        );
        let ghost done = Seq::<ChunkView>::empty();
        let ghost start_views = views(out@);
        proof {
            lemma_line_ranges(data@);
            assert(done + full =~= full);
            assert(start_views + done =~= start_views);
        }
        let mut i: usize = 0;
        while i < ranges.len()
            invariant
                plain == plain_face(),
                lines == line_ranges(data@),
                ranges@.len() == lines.len(),
                forall|q: int|
                    0 <= q < ranges@.len() ==> (#[trigger] ranges@[q]).0 == lines[q].0
                        && ranges@[q].1 == lines[q].1,
                forall|q: int|
                    0 <= q < lines.len() ==> 0 <= (#[trigger] lines[q]).0 < lines[q].1
                        <= data@.len(),
                i <= ranges@.len(),
                cursor_added <= shared_added@.len(),
                cursor_removed <= shared_removed@.len(),
                views(out@) == start_views + done,
                done + render(
                    data@,
                    lines,
                    self.config,
                    as_ints(shared_added@),
                    as_ints(shared_removed@),
                    i as int,
                    cursor_added as int,
                    cursor_removed as int,
                ) == full,
            decreases ranges@.len() - i,
        {
            let range = ranges[i];
            let ghost rest_before = render(
                data@,
                lines,
                self.config,
                as_ints(shared_added@),
                as_ints(shared_removed@),
                i as int,
                cursor_added as int,
                cursor_removed as int,
            );
            let ghost ca = cursor_added as int;
            let ghost cr = cursor_removed as int;
            let ghost views_before = views(out@);
            proof {
                assert(lines[i as int].0 == range.0 && lines[i as int].1 == range.1);
            }
            let first = data[range.0];
            if first == PLUS {
                paint_line(
                    data,
                    range,
                    &self.config.added_face,
                    &self.config.refine_added_face,
                    &shared_added,
                    &mut cursor_added,
                    out,
                );
                proof {
                    let line = paint_spec(
                        data@,
                        range.0 as int,
                        range.1 as int,
                        self.config.added_face,
                        self.config.refine_added_face,
                        as_ints(shared_added@),
                        ca,
                    );
                    let rest = render(
                        data@,
                        lines,
                        self.config,
                        as_ints(shared_added@),
                        as_ints(shared_removed@),
                        i + 1,
                        line.1,
                        cr,
                    );
                    assert(rest_before == line.0 + rest);
                    assert(views(out@) == views_before + line.0);
                    assert(done + (line.0 + rest) =~= (done + line.0) + rest);
                    assert(views_before + line.0 =~= start_views + (done + line.0));
                    done = done + line.0;
                }
            } else if first == MINUS {
                paint_line(
                    data,
                    range,
                    &self.config.removed_face,
                    &self.config.refine_removed_face,
                    &shared_removed,
                    &mut cursor_removed,
                    out,
                );
                proof {
                    let line = paint_spec(
                        data@,
                        range.0 as int,
                        range.1 as int,
                        self.config.removed_face,
                        self.config.refine_removed_face,
                        as_ints(shared_removed@),
                        cr,
                    );
                    let rest = render(
                        data@,
                        lines,
                        self.config,
                        as_ints(shared_added@),
                        as_ints(shared_removed@),
                        i + 1,
                        ca,
                        line.1,
                    );
                    assert(rest_before == line.0 + rest);
                    assert(views(out@) == views_before + line.0);
                    assert(done + (line.0 + rest) =~= (done + line.0) + rest);
                    assert(views_before + line.0 =~= start_views + (done + line.0));
                    done = done + line.0;
                }
            } else {
                output(data, range.0, range.1, &plain, out);
                proof {
                    let line = output_spec(data@, range.0 as int, range.1 as int, plain_face());
                    let rest = render(
                        data@,
                        lines,
                        self.config,
                        as_ints(shared_added@),
                        as_ints(shared_removed@),
                        i + 1,
                        ca,
                        cr,
                    );
                    assert(rest_before == line + rest);
                    assert(views(out@) == views_before + line);
                    assert(done + (line + rest) =~= (done + line) + rest);
                    assert(views_before + line =~= start_views + (done + line));
                    done = done + line;
                }
            }
            i += 1;
        }
        proof {
            assert(done + Seq::<ChunkView>::empty() =~= done);
        }
        self.lines.clear();
        self.added_tokens.clear();
        self.removed_tokens.clear();
    }

    /// Refines the hunk as `process` does, and adds the time it took to
    /// the time of hunk processing.
    pub fn process_with_stats(&mut self, out: &mut Vec<Chunk>)
        requires
            old(self).wf(),
        ensures
            final(self).wf(),
            final(self).config == old(self).config,
            timers_advanced(old(self).stats, final(self).stats),
            final(self).lines.data@.len() == 0,
            final(self).added_tokens@.len() == 0,
            final(self).removed_tokens@.len() == 0,
            is_alignment(
                tokens_of(old(self).lines.data@, old(self).removed_tokens@),
                tokens_of(old(self).lines.data@, old(self).added_tokens@),
                final(self).diff_buffer@,
            ),
            total_length(final(self).diff_buffer@) == lcs_len(
                tokens_of(old(self).lines.data@, old(self).removed_tokens@),
                tokens_of(old(self).lines.data@, old(self).added_tokens@),
                old(self).removed_tokens@.len() as int,
                old(self).added_tokens@.len() as int,
            ),
            views(final(out)@) == views(old(out)@) + hunk_chunks(
                old(self).lines.data@,
                old(self).added_tokens@,
                old(self).removed_tokens@,
                old(self).config,
                final(self).diff_buffer@,
            ),
    {
        let start = now(self.stats.do_timings());
        self.process(out);
        self.stats.record(Timer::HunkProcessing, duration_ms_since(&start));
    }
}

/// The tokens of a new last line, behind those that were there, fit the
/// data with the line appended; there are no more of them than the line
/// has bytes.
proof fn lemma_new_tokens(
    data: Seq<u8>,
    more: Seq<u8>,
    before: Seq<HashedSpan>,
    after: Seq<HashedSpan>,
    ofs: int,
)
    requires
        spans_ok(data, before),
        data.len() < ofs,
        after.len() >= before.len(),
        after.subrange(0, before.len() as int) == before,
        extents_of(after.subrange(before.len() as int, after.len() as int)) == token_extents(
            data + more,
            ofs,
        ),
        forall|i: int| before.len() <= i < after.len() ==> span_ok(data + more, #[trigger] after[i]),
    ensures
        spans_ok(data + more, after),
        after.len() - before.len() <= more.len(),
{
    let all = data + more;
    let fresh = after.subrange(before.len() as int, after.len() as int);
    let ext = token_extents(all, ofs);
    lemma_token_extents(all, ofs);
    lemma_spans_ok_extend(data, more, before);
    assert(extents_of(fresh).len() == ext.len());
    assert forall|i: int| 0 <= i < after.len() implies span_ok(all, #[trigger] after[i]) by {
        if i < before.len() {
            assert(after[i] == after.subrange(0, before.len() as int)[i]);
        }
    }
    assert forall|i: int, j: int| 0 <= i < j < after.len() implies (#[trigger] after[i]).offset
        + after[i].length <= (#[trigger] after[j]).offset by {
        if j < before.len() {
            assert(after[i] == after.subrange(0, before.len() as int)[i]);
            assert(after[j] == after.subrange(0, before.len() as int)[j]);
        } else {
            assert(after[j] == fresh[j - before.len()]);
            assert(extents_of(fresh)[j - before.len()] == ext[j - before.len()]);
            if i < before.len() {
                assert(after[i] == after.subrange(0, before.len() as int)[i]);
                assert(span_ok(data, before[i]));
            } else {
                assert(after[i] == fresh[i - before.len()]);
                assert(extents_of(fresh)[i - before.len()] == ext[i - before.len()]);
            }
        }
    }
}

} // verus!

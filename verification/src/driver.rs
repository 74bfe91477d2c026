//! The driver: takes the input line by line, collects the lines of a hunk,
//! and gives out the chunks to write.

use vstd::prelude::*;
use crate::config::{plain_face, AppConfig, Face};
use crate::escape::{first_after_escape, first_byte};
use crate::hunk::{hunk_chunks, lemma_hunk_bytes, tokens_pushed, HunkBuffer, MINUS, PLUS};
use crate::lcs::lcs_len;
use crate::lines::stripped;
use crate::paint::{
    flat_bytes,
    lemma_flat_concat,
    lemma_output_bytes,
    output,
    output_spec,
    views,
    Chunk,
    ChunkView,
};
use crate::snake::{is_alignment, total_length, Snake};
use crate::stats::timers_advanced;
use crate::token::tokens_of;

verus! {

/// The first byte of a hunk's header.
pub const AT: u8 = 0x40;

/// The marker of a line of context.
pub const SPACE: u8 = 0x20;

/// What a line is to the driver.
pub enum LineKind {
    /// An added line of the hunk at hand.
    Added,
    /// A removed line of the hunk at hand.
    Removed,
    /// A line of context of the hunk at hand.
    Context,
    /// The header of a hunk: it ends the hunk at hand and begins the next.
    Header,
    /// Any other line: it ends the hunk at hand.
    Other,
}

/// What `line` is, inside a hunk or outside.
pub open spec fn line_kind(in_hunk: bool, line: Seq<u8>) -> LineKind {
    if first_byte(line) == Some(AT) {
        LineKind::Header
    } else if in_hunk && first_byte(line) == Some(PLUS) {
        LineKind::Added
    } else if in_hunk && first_byte(line) == Some(MINUS) {
        LineKind::Removed
    } else if in_hunk && first_byte(line) == Some(SPACE) {
        LineKind::Context
    } else {
        LineKind::Other
    }
}

/// The state of the driver: the hunk at hand, and whether there is one.
pub struct Driver {
    pub hunk_buffer: HunkBuffer,
    pub in_hunk: bool,
}

impl Driver {
    /// The buffer is in order, and holds nothing outside a hunk.
    pub open spec fn wf(&self) -> bool {
        &&& self.hunk_buffer.wf()
        &&& !self.in_hunk ==> self.hunk_buffer.lines.data@.len() == 0
    }

    /// A driver outside any hunk.
    pub fn new(config: AppConfig) -> (driver: Self)
        ensures
            driver.wf(),
            !driver.in_hunk,
            driver.hunk_buffer.config == config,
            driver.hunk_buffer.stats.program_start.is_some() == config.debug,
    {
        Driver { hunk_buffer: HunkBuffer::new(config), in_hunk: false }
    }

    /// Number of bytes of the hunk at hand.
    pub fn pending_bytes(&self) -> (n: usize)
        ensures
            n == self.hunk_buffer.lines.data@.len(),
    {
        self.hunk_buffer.lines.len()
    }

    /// Takes one line of input. An added, removed or context line of the
    /// hunk at hand is stored and nothing is given out. Any other line ends
    /// the hunk at hand, whose chunks are given out, and is then given out
    /// itself, unchanged and in the plain face; a header begins the next
    /// hunk.
    #[verifier::rlimit(40)]
    pub fn feed_line(&mut self, line: &[u8], out: &mut Vec<Chunk>)
        requires
            old(self).wf(),
            3 * (old(self).hunk_buffer.lines.data@.len() + line@.len()) < usize::MAX,
        ensures
            final(self).wf(),
            final(self).hunk_buffer.config == old(self).hunk_buffer.config,
            timers_advanced(old(self).hunk_buffer.stats, final(self).hunk_buffer.stats),
            match line_kind(old(self).in_hunk, line@) {
                LineKind::Added => {
                    &&& final(self).in_hunk
                    &&& final(out)@ == old(out)@
                    &&& final(self).hunk_buffer.lines.data@ == old(self).hunk_buffer.lines.data@
                        + stripped(line@)
                    &&& final(self).hunk_buffer.removed_tokens@ == old(
                        self,
                    ).hunk_buffer.removed_tokens@
                    &&& tokens_pushed(
                        old(self).hunk_buffer.added_tokens@,
                        final(self).hunk_buffer.added_tokens@,
                        final(self).hunk_buffer.lines.data@,
                        old(self).hunk_buffer.lines.data@.len() as int,
                    )
                },
                LineKind::Removed => {
                    &&& final(self).in_hunk
                    &&& final(out)@ == old(out)@
                    &&& final(self).hunk_buffer.lines.data@ == old(self).hunk_buffer.lines.data@
                        + stripped(line@)
                    &&& final(self).hunk_buffer.added_tokens@ == old(
                        self,
                    ).hunk_buffer.added_tokens@
                    &&& tokens_pushed(
                        old(self).hunk_buffer.removed_tokens@,
                        final(self).hunk_buffer.removed_tokens@,
                        final(self).hunk_buffer.lines.data@,
                        old(self).hunk_buffer.lines.data@.len() as int,
                    )
                },
                LineKind::Context => {
                    &&& final(self).in_hunk
                    &&& final(out)@ == old(out)@
                    &&& final(self).hunk_buffer.lines.data@ == old(self).hunk_buffer.lines.data@
                        + stripped(line@)
                    &&& final(self).hunk_buffer.added_tokens@ == old(
                        self,
                    ).hunk_buffer.added_tokens@
                    &&& final(self).hunk_buffer.removed_tokens@ == old(
                        self,
                    ).hunk_buffer.removed_tokens@
                },
                _ => {
                    &&& final(self).in_hunk == (first_byte(line@) == Some(AT))
                    &&& final(self).hunk_buffer.lines.data@.len() == 0
                    &&& final(self).hunk_buffer.added_tokens@.len() == 0
                    &&& final(self).hunk_buffer.removed_tokens@.len() == 0
                    &&& old(self).in_hunk ==> flushed(
                        old(self).hunk_buffer,
                        final(self).hunk_buffer.diff_buffer@,
                    )
                    &&& views(final(out)@) == views(old(out)@) + (if old(self).in_hunk {
                        hunk_chunks(
                            old(self).hunk_buffer.lines.data@,
                            old(self).hunk_buffer.added_tokens@,
                            old(self).hunk_buffer.removed_tokens@,
                            old(self).hunk_buffer.config,
                            final(self).hunk_buffer.diff_buffer@,
                        )
                    } else {
                        Seq::empty()
                    }) + output_spec(line@, 0, line@.len() as int, plain_face())
                },
            },
    {
        let first = first_after_escape(line);
        let marker: u8 = match first {
            Some(b) => b,
            None => 0,
        };
        if self.in_hunk && marker == PLUS {
            self.hunk_buffer.push_added(line);
        } else if self.in_hunk && marker == MINUS {
            self.hunk_buffer.push_removed(line);
        } else if self.in_hunk && marker == SPACE {
            self.hunk_buffer.append_context(line);
        } else {
            let ghost before = views(out@);
            if self.in_hunk {
                self.hunk_buffer.process_with_stats(out);
            } else {
                proof {
                    assert(before + Seq::<ChunkView>::empty() =~= before);
                }
            }
            self.in_hunk = marker == AT;
            let plain = Face::plain();
            output(line, 0, line.len(), &plain, out);
        }
    }

    /// Ends the input: gives out the chunks of the hunk at hand, if there
    /// is one, and takes the total time.
    pub fn finish(&mut self, out: &mut Vec<Chunk>)
        requires
            old(self).wf(),
        ensures
            final(self).wf(),
            !final(self).in_hunk,
            final(self).hunk_buffer.config == old(self).hunk_buffer.config,
            final(self).hunk_buffer.stats.program_start == old(
                self,
            ).hunk_buffer.stats.program_start,
            old(self).hunk_buffer.stats.program_start.is_none() ==> final(self).hunk_buffer.stats
                == old(self).hunk_buffer.stats,
            flushed(old(self).hunk_buffer, final(self).hunk_buffer.diff_buffer@),
            views(final(out)@) == views(old(out)@) + hunk_chunks(
                old(self).hunk_buffer.lines.data@,
                old(self).hunk_buffer.added_tokens@,
                old(self).hunk_buffer.removed_tokens@,
                old(self).hunk_buffer.config,
                final(self).hunk_buffer.diff_buffer@,
            ),
            !old(self).in_hunk ==> views(final(out)@) == views(old(out)@),
    {
        proof {
            if !self.in_hunk {
                lemma_hunk_bytes(
                    self.hunk_buffer.lines.data@,
                    self.hunk_buffer.added_tokens@,
                    self.hunk_buffer.removed_tokens@,
                    self.hunk_buffer.config,
                    self.hunk_buffer.diff_buffer@,
                );
            }
        }
        let ghost before = views(out@);
        self.hunk_buffer.process_with_stats(out);
        self.hunk_buffer.stats.stop();
        self.in_hunk = false;
        proof {
            if !old(self).in_hunk {
                let chunks = hunk_chunks(
                    old(self).hunk_buffer.lines.data@,
                    old(self).hunk_buffer.added_tokens@,
                    old(self).hunk_buffer.removed_tokens@,
                    old(self).hunk_buffer.config,
                    self.hunk_buffer.diff_buffer@,
                );
                assert(chunks =~= Seq::<ChunkView>::empty());
                assert(before + chunks =~= before);
            }
        }
    }
}

/// `snakes` is a longest common subsequence of the removed and the added
/// tokens of the hunk in `buffer`.
pub open spec fn flushed(buffer: HunkBuffer, snakes: Seq<Snake>) -> bool {
    &&& is_alignment(
        tokens_of(buffer.lines.data@, buffer.removed_tokens@),
        tokens_of(buffer.lines.data@, buffer.added_tokens@),
        snakes,
    )
    &&& total_length(snakes) == lcs_len(
        tokens_of(buffer.lines.data@, buffer.removed_tokens@),
        tokens_of(buffer.lines.data@, buffer.added_tokens@),
        buffer.removed_tokens@.len() as int,
        buffer.added_tokens@.len() as int,
    )
}

/// The lines one behind the other.
pub open spec fn joined(lines: Seq<Seq<u8>>) -> Seq<u8>
    decreases lines.len(),
{
    if lines.len() == 0 {
        Seq::empty()
    } else {
        joined(lines.drop_last()) + lines.last()
    }
}

/// What the driver gives out for lines that it takes outside a hunk, none
/// of them a header: for each its chunk in the plain face.
pub open spec fn echoed(lines: Seq<Seq<u8>>) -> Seq<ChunkView>
    decreases lines.len(),
{
    if lines.len() == 0 {
        Seq::empty()
    } else {
        echoed(lines.drop_last()) + output_spec(
            lines.last(),
            0,
            lines.last().len() as int,
            plain_face(),
        )
    }
}

/// Outside a hunk a line that is no header is given out byte for byte, and
/// the driver stays outside.
pub proof fn lemma_passthrough(line: Seq<u8>)
    ensures
        flat_bytes(output_spec(line, 0, line.len() as int, plain_face())) == line,
        first_byte(line) != Some(AT) ==> line_kind(false, line) is Other,
{
    lemma_output_bytes(line, 0, line.len() as int, plain_face());
    assert(line.subrange(0, line.len() as int) =~= line);
}

/// As long as no header has come, the output is the input: every line is
/// taken as a line outside a hunk, and the bytes given out for the lines
/// are the lines.
pub proof fn lemma_passthrough_all(lines: Seq<Seq<u8>>)
    requires
        forall|i: int| 0 <= i < lines.len() ==> first_byte(#[trigger] lines[i]) != Some(AT),
    ensures
        forall|i: int| 0 <= i < lines.len() ==> line_kind(false, #[trigger] lines[i]) is Other,
        flat_bytes(echoed(lines)) == joined(lines),
    decreases lines.len(),
{
    if lines.len() > 0 {
        let front = lines.drop_last();
        assert forall|i: int| 0 <= i < front.len() implies first_byte(#[trigger] front[i]) != Some(
            AT,
        ) by {
            assert(front[i] == lines[i]);
        }
        lemma_passthrough_all(front);
        lemma_passthrough(lines.last());
        lemma_flat_concat(
            echoed(front),
            output_spec(lines.last(), 0, lines.last().len() as int, plain_face()),
        );
    }
}

} // verus!

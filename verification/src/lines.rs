//! The line store: the bytes of a hunk's lines, without their escape
//! sequences, and where each line ends.

use vstd::prelude::*;
use vstd::slice::slice_subrange;
use crate::escape::{
    escapes_len,
    first_byte,
    lemma_escapes_len,
    lemma_plain_len,
    opens_escape,
    plain_len,
    skip_all_escape_code,
    skip_token,
};

verus! {

/// The line feed that ends a line.
pub const NEWLINE: u8 = 0x0a;

/// The positions behind each line feed of `data`, in order.
pub open spec fn newline_ends(data: Seq<u8>) -> Seq<int>
    decreases data.len(),
{
    if data.len() == 0 {
        Seq::empty()
    } else if data.last() == NEWLINE {
        newline_ends(data.drop_last()).push(data.len() as int)
    } else {
        newline_ends(data.drop_last())
    }
}

/// Where the lines of `data` end: behind each line feed, and at the end of
/// the data where the last line has no line feed.
pub open spec fn line_ends(data: Seq<u8>) -> Seq<int> {
    if data.len() > 0 && data.last() != NEWLINE {
        newline_ends(data).push(data.len() as int)
    } else {
        newline_ends(data)
    }
}

/// The lines of `data`, each as the range of its bytes, line feed included.
pub open spec fn line_ranges(data: Seq<u8>) -> Seq<(int, int)> {
    Seq::new(
        line_ends(data).len(),
        |i: int|
            (
                if i == 0 {
                    0
                } else {
                    line_ends(data)[i - 1]
                },
                line_ends(data)[i],
            ),
    )
}

/// Length of the run of bytes that is copied from the start of `rest`,
/// which starts with no complete escape sequence: up to the next `ESC [`,
/// but at least one byte.
pub open spec fn run_len(rest: Seq<u8>) -> int {
    if opens_escape(rest, 0) {
        1 + plain_len(rest.drop_first())
    } else {
        plain_len(rest)
    }
}

/// The bytes of `line` without its escape sequences. An `ESC [` that no `m`
/// follows is no escape sequence and stays.
pub open spec fn stripped(line: Seq<u8>) -> Seq<u8>
    decreases line.len(),
    via stripped_decreases
{
    let rest = line.subrange(escapes_len(line), line.len() as int);
    if line.len() == 0 || rest.len() == 0 {
        Seq::empty()
    } else {
        rest.subrange(0, run_len(rest)) + stripped(rest.subrange(run_len(rest), rest.len() as int))
    }
}

#[via_fn]
proof fn stripped_decreases(line: Seq<u8>) {
    lemma_escapes_len(line);
    let rest = line.subrange(escapes_len(line), line.len() as int);
    if rest.len() > 0 {
        lemma_run_len(rest);
    }
}

/// The run that is copied is not empty and lies within the bytes.
pub proof fn lemma_run_len(rest: Seq<u8>)
    requires
        rest.len() > 0,
    ensures
        1 <= run_len(rest) <= rest.len(),
{
    lemma_plain_len(rest);
    lemma_plain_len(rest.drop_first());
}

/// Stripping adds no bytes.
pub proof fn lemma_stripped_len(line: Seq<u8>)
    ensures
        stripped(line).len() <= line.len(),
    decreases line.len(),
{
    lemma_escapes_len(line);
    let rest = line.subrange(escapes_len(line), line.len() as int);
    if line.len() > 0 && rest.len() > 0 {
        lemma_run_len(rest);
        lemma_stripped_len(rest.subrange(run_len(rest), rest.len() as int));
    }
}

/// What is stored of a line begins with the first byte behind the line's
/// leading escape sequences; where there is no such byte, nothing is
/// stored.
pub proof fn lemma_stripped_first(line: Seq<u8>)
    ensures
        match first_byte(line) {
            Some(b) => stripped(line).len() > 0 && stripped(line)[0] == b,
            None => stripped(line).len() == 0,
        },
{
    lemma_escapes_len(line);
    let rest = line.subrange(escapes_len(line), line.len() as int);
    if rest.len() > 0 {
        lemma_run_len(rest);
    }
}

/// The ends of the complete lines grow strictly, and each stands behind a
/// line feed.
pub proof fn lemma_newline_ends(data: Seq<u8>)
    ensures
        forall|i: int|
            0 <= i < newline_ends(data).len() ==> 0 < (#[trigger] newline_ends(data)[i])
                <= data.len() && data[newline_ends(data)[i] - 1] == NEWLINE,
        forall|i: int, j: int|
            0 <= i < j < newline_ends(data).len() ==> (#[trigger] newline_ends(data)[i]) < (
            #[trigger] newline_ends(data)[j]),
        newline_ends(data).len() <= data.len(),
        data.len() > 0 && data.last() == NEWLINE ==> newline_ends(data).len() > 0
            && newline_ends(data).last() == data.len(),
        data.len() > 0 && data.last() != NEWLINE && newline_ends(data).len() > 0
            ==> newline_ends(data).last() < data.len(),
    decreases data.len(),
{
    if data.len() > 0 {
        let front = data.drop_last();
        lemma_newline_ends(front);
        let e = newline_ends(data);
        assert forall|i: int| 0 <= i < e.len() implies 0 < (#[trigger] e[i]) <= data.len()
            && data[e[i] - 1] == NEWLINE by {
            if i < newline_ends(front).len() {
                assert(e[i] == newline_ends(front)[i]);
                assert(front[e[i] - 1] == data[e[i] - 1]);
            }
        }
        assert forall|i: int, j: int| 0 <= i < j < e.len() implies (#[trigger] e[i]) < (
        #[trigger] e[j]) by {
            assert(e[i] == newline_ends(front)[i]);
            if j < newline_ends(front).len() {
                assert(e[j] == newline_ends(front)[j]);
            }
        }
    }
}

/// The lines lie one behind the other, none is empty, and together they
/// are the data.
pub proof fn lemma_line_ranges(data: Seq<u8>)
    ensures
        forall|i: int|
            0 <= i < line_ranges(data).len() ==> 0 <= (#[trigger] line_ranges(data)[i]).0
                < line_ranges(data)[i].1 <= data.len(),
        forall|i: int|
            0 < i < line_ranges(data).len() ==> (#[trigger] line_ranges(data)[i]).0
                == line_ranges(data)[i - 1].1,
        line_ranges(data).len() > 0 ==> line_ranges(data)[0].0 == 0 && line_ranges(
            data,
        ).last().1 == data.len(),
        line_ranges(data).len() == 0 <==> data.len() == 0,
        line_ranges(data).len() <= data.len(),
{
    lemma_newline_ends(data);
    if data.len() > 0 {
        lemma_newline_ends(data.drop_last());
    }
    let e = line_ends(data);
    let ne = newline_ends(data);
    assert forall|i: int, j: int| 0 <= i < j < e.len() implies (#[trigger] e[i]) < (
    #[trigger] e[j]) by {
        assert(e[i] == ne[i]);
        if j < ne.len() {
            assert(e[j] == ne[j]);
        }
    }
    assert forall|i: int| 0 <= i < e.len() implies 0 < (#[trigger] e[i]) <= data.len() by {
        if i < ne.len() {
            assert(e[i] == ne[i]);
        }
    }
    assert forall|i: int| 0 <= i < line_ranges(data).len() implies 0 <= (#[trigger] line_ranges(
        data,
    )[i]).0 < line_ranges(data)[i].1 <= data.len() by {
        if i > 0 {
            assert(e[i - 1] < e[i]);
        }
    }
}

/// An append-only store of lines. `ends` holds the end of every line that
/// a line feed has closed; bytes behind the last of them are a line that is
/// still open.
pub struct LineSplit {
    pub data: Vec<u8>,
    pub ends: Vec<usize>,
}

impl LineSplit {
    /// The recorded ends are those of the data.
    pub open spec fn wf(&self) -> bool {
        self.ends@.map_values(|e: usize| e as int) == newline_ends(self.data@)
    }

    /// The lines, each as the range of its bytes.
    pub open spec fn lines(&self) -> Seq<(int, int)> {
        line_ranges(self.data@)
    }

    /// An empty store.
    pub fn new() -> (s: Self)
        ensures
            s.wf(),
            s.data@.len() == 0,
    {
        let s = LineSplit { data: Vec::new(), ends: Vec::new() };
        assert(s.ends@.map_values(|e: usize| e as int) =~= newline_ends(s.data@));
        s
    }

    /// The bytes of all lines.
    pub fn data(&self) -> (d: &[u8])
        ensures
            d@ == self.data@,
    {
        self.data.as_slice()
    }

    /// Number of bytes stored.
    pub fn len(&self) -> (n: usize)
        ensures
            n == self.data@.len(),
    {
        self.data.len()
    }

    /// Drops all lines.
    pub fn clear(&mut self)
        ensures
            final(self).wf(),
            final(self).data@.len() == 0,
    {
        self.data.clear();
        self.ends.clear();
        assert(self.ends@.map_values(|e: usize| e as int) =~= newline_ends(self.data@));
    }

    /// Appends the bytes of `line`. A line feed closes the line it stands
    /// in; bytes behind it open the next.
    pub fn append_line(&mut self, line: &[u8])
        requires
            old(self).wf(),
        ensures
            final(self).wf(),
            final(self).data@ == old(self).data@ + line@,
    {
        let n = line.len();
        let mut i: usize = 0;
        proof {
            assert(self.data@ =~= old(self).data@ + line@.subrange(0, 0));
        }
        while i < n
            invariant
                n == line@.len(),
                i <= n,
                self.wf(),
                self.data@ == old(self).data@ + line@.subrange(0, i as int),
            decreases n - i,
        {
            let b = line[i];
            let ghost before = self.data@;
            let ghost ends_before = self.ends@;
            self.data.push(b);
            proof {
                assert(self.data@.drop_last() =~= before);
                assert(self.data@ =~= old(self).data@ + line@.subrange(0, i + 1));
            }
            if b == NEWLINE {
                self.ends.push(self.data.len());
                proof {
                    assert(self.ends@.map_values(|e: usize| e as int) =~= ends_before.map_values(
                        |e: usize| e as int,
                    ).push(self.data@.len() as int));
                }
            }
            i += 1;
        }
        proof {
            assert(line@.subrange(0, n as int) =~= line@);
        }
    }

    /// The lines in order, each as the range of its bytes.
    pub fn iter(&self) -> (ranges: Vec<(usize, usize)>)
        requires
            self.wf(),
        ensures
            ranges@.len() == self.lines().len(),
            forall|i: int|
                0 <= i < ranges@.len() ==> (#[trigger] ranges@[i]).0 == self.lines()[i].0
                    && ranges@[i].1 == self.lines()[i].1,
    {
        let mut ranges: Vec<(usize, usize)> = Vec::new();
        let mut start: usize = 0;
        let mut i: usize = 0;
        let total = self.data.len();
        proof {
            lemma_newline_ends(self.data@);
            lemma_line_ranges(self.data@);
        }
        while i < self.ends.len()
            invariant
                self.wf(),
                total == self.data@.len(),
                i <= self.ends@.len(),
                ranges@.len() == i,
                start == (if i == 0 {
                    0
                } else {
                    newline_ends(self.data@)[i - 1]
                }),
                forall|q: int|
                    0 <= q < i ==> (#[trigger] ranges@[q]).0 == self.lines()[q].0 && ranges@[q].1
                        == self.lines()[q].1,
            decreases self.ends@.len() - i,
        {
            let end = self.ends[i];
            proof {
                assert(self.ends@.map_values(|e: usize| e as int)[i as int] == end);
                assert(line_ends(self.data@)[i as int] == end);
                if i > 0 {
                    assert(line_ends(self.data@)[i - 1] == start);
                }
            }
            ranges.push((start, end));
            start = end;
            i += 1;
        }
        if start < total {
            proof {
                assert(self.ends@.map_values(|e: usize| e as int).len() == i);
                if self.data@.last() == NEWLINE {
                    assert(false);
                }
                if i > 0 {
                    assert(line_ends(self.data@)[i - 1] == start);
                }
            }
            ranges.push((start, total));
        } else {
            proof {
                assert(self.ends@.map_values(|e: usize| e as int).len() == i);
                if total > 0 && self.data@.last() != NEWLINE {
                    if i > 0 {
                        assert(newline_ends(self.data@).last() < total);
                    }
                    assert(false);
                }
            }
        }
        ranges
    }
}

/// Appends `line` to the store without its escape sequences.
#[verifier::rlimit(40)]
pub fn add_raw_line(dst: &mut LineSplit, line: &[u8])
    requires
        old(dst).wf(),
    ensures
        final(dst).wf(),
        final(dst).data@ == old(dst).data@ + stripped(line@),
{
    let len = line.len();
    let mut i: usize = 0;
    proof {
        assert(line@.subrange(0, len as int) =~= line@);
        assert(dst.data@ + stripped(line@) =~= old(dst).data@ + stripped(line@));
    }
    while i < len
        invariant
            len == line@.len(),
            i <= len,
            dst.wf(),
            dst.data@ + stripped(line@.subrange(i as int, len as int)) == old(dst).data@ + stripped(
                line@,
            ),
        decreases len - i,
    {
        let ghost cur = line@.subrange(i as int, len as int);
        let ghost data0 = dst.data@;
        let skipped = skip_all_escape_code(slice_subrange(line, i, len));
        let start = i + skipped;
        let rest = slice_subrange(line, start, len);
        proof {
            assert(rest@ =~= cur.subrange(escapes_len(cur), cur.len() as int));
        }
        if start == len {
            proof {
                assert(stripped(cur) =~= Seq::<u8>::empty());
                assert(stripped(line@.subrange(len as int, len as int)) =~= Seq::<u8>::empty());
            }
            i = len;
        } else {
            let plain = skip_token(rest);
            let tok_len = if plain == 0 {
                1 + skip_token(slice_subrange(rest, 1, rest.len()))
            } else {
                plain
            };
            proof {
                lemma_run_len(rest@);
                assert(rest@.drop_first() =~= rest@.subrange(1, rest@.len() as int));
                assert(tok_len == run_len(rest@));
                assert(line@.subrange(start as int, start + tok_len) =~= rest@.subrange(
                    0,
                    tok_len as int,
                ));
                assert(line@.subrange(start + tok_len, len as int) =~= rest@.subrange(
                    tok_len as int,
                    rest@.len() as int,
                ));
            }
            dst.append_line(slice_subrange(line, start, start + tok_len));
            proof {
                assert(dst.data@ + stripped(line@.subrange(start + tok_len, len as int)) =~= data0
                    + stripped(cur));
            }
            i = start + tok_len;
        }
    }
    proof {
        assert(stripped(line@.subrange(len as int, len as int)) =~= Seq::<u8>::empty());
        assert(dst.data@ + Seq::<u8>::empty() =~= dst.data@);
    }
}

} // verus!

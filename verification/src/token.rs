//! Tokens: maximal runs of word bytes and single bytes of punctuation,
//! each recorded with its place in the text and a hash of its bytes.

use vstd::prelude::*;

verus! {

/// A token of a text: `length` bytes from `offset` on, and their hash.
#[derive(Clone, Copy, Debug, PartialEq, Eq)]
pub struct HashedSpan {
    pub offset: usize,
    pub length: usize,
    pub hash: u32,
}

/// The class of a byte, by which the text is cut into tokens.
#[derive(Clone, Copy, Debug, PartialEq, Eq, Structural)]
pub enum TokenKind {
    Other,
    Word,
    Spaces,
}

/// `b` is one of `[0-9A-Za-z_]`.
pub open spec fn is_word_byte(b: u8) -> bool {
    (0x30 <= b <= 0x39) || (0x41 <= b <= 0x5a) || (0x61 <= b <= 0x7a) || b == 0x5f
}

/// `b` is a space, a tab or a line feed.
pub open spec fn is_space_byte(b: u8) -> bool {
    b == 0x20 || b == 0x09 || b == 0x0a
}

/// The class of `b`.
pub open spec fn kind_of(b: u8) -> TokenKind {
    if is_word_byte(b) {
        TokenKind::Word
    } else if is_space_byte(b) {
        TokenKind::Spaces
    } else {
        TokenKind::Other
    }
}

/// Start value of the hash (FNV-1a, 32 bits).
pub const HASH_BASIS: u32 = 0x811c9dc5;

/// Multiplier of the hash.
pub const HASH_PRIME: u32 = 0x01000193;

/// The hash after one more byte.
pub open spec fn hash_step(h: u32, b: u8) -> u32 {
    (h ^ (b as u32)).wrapping_mul(HASH_PRIME)
}

/// The hash of a byte string: equal strings have equal hashes.
pub open spec fn hash_of(s: Seq<u8>) -> u32
    decreases s.len(),
{
    if s.len() == 0 {
        HASH_BASIS
    } else {
        hash_step(hash_of(s.drop_last()), s.last())
    }
}

/// Number of word bytes that `src` holds in a row from `pos` on.
pub open spec fn word_run(src: Seq<u8>, pos: int) -> nat
    decreases src.len() - pos,
{
    if 0 <= pos < src.len() && is_word_byte(src[pos]) {
        1 + word_run(src, pos + 1)
    } else {
        0
    }
}

/// The tokens of `src` from `pos` on, each as its offset and length: spaces
/// separate tokens and belong to none, word bytes in a row make one token,
/// and every other byte is a token by itself.
pub open spec fn token_extents(src: Seq<u8>, pos: int) -> Seq<(int, int)>
    decreases src.len() - pos,
    via token_extents_decreases
{
    if pos < 0 || pos >= src.len() {
        Seq::empty()
    } else if is_space_byte(src[pos]) {
        token_extents(src, pos + 1)
    } else if is_word_byte(src[pos]) {
        let more = word_run(src, pos + 1);
        seq![(pos, (1 + more) as int)] + token_extents(src, pos + 1 + more)
    } else {
        seq![(pos, 1int)] + token_extents(src, pos + 1)
    }
}

#[via_fn]
proof fn token_extents_decreases(src: Seq<u8>, pos: int) {
    if 0 <= pos < src.len() {
        lemma_word_run(src, pos + 1);
    }
}

/// The span lies in `data`, is not empty, and carries the hash of its bytes.
pub open spec fn span_ok(data: Seq<u8>, span: HashedSpan) -> bool {
    &&& 0 < span.length
    &&& span.offset + span.length <= data.len()
    &&& span.hash == hash_of(data.subrange(span.offset as int, span.offset + span.length))
}

/// Every span is in order, and each begins where the one before it has
/// ended, or later.
pub open spec fn spans_ok(data: Seq<u8>, spans: Seq<HashedSpan>) -> bool {
    &&& forall|i: int| 0 <= i < spans.len() ==> span_ok(data, #[trigger] spans[i])
    &&& forall|i: int, j: int|
        0 <= i < j < spans.len() ==> (#[trigger] spans[i]).offset + spans[i].length <= (
        #[trigger] spans[j]).offset
}

/// The bytes of a span.
pub open spec fn span_bytes(data: Seq<u8>, span: HashedSpan) -> Seq<u8> {
    data.subrange(span.offset as int, span.offset + span.length)
}

/// Offsets and lengths of the spans.
pub open spec fn extents_of(spans: Seq<HashedSpan>) -> Seq<(int, int)> {
    Seq::new(spans.len(), |i: int| (spans[i].offset as int, spans[i].length as int))
}

/// The tokens of the spans, each as its bytes.
pub open spec fn tokens_of(data: Seq<u8>, spans: Seq<HashedSpan>) -> Seq<Seq<u8>> {
    Seq::new(spans.len(), |i: int| span_bytes(data, spans[i]))
}

/// A tokenized text: the bytes and the spans of its tokens.
pub struct Tokenization<'a> {
    pub data: &'a [u8],
    pub spans: &'a [HashedSpan],
}

impl<'a> Tokenization<'a> {
    /// The tokens, each as its bytes.
    pub open spec fn tokens(&self) -> Seq<Seq<u8>> {
        tokens_of(self.data@, self.spans@)
    }

    /// The spans fit the data.
    pub open spec fn wf(&self) -> bool {
        spans_ok(self.data@, self.spans@)
    }

    /// The tokenization of `data` by `spans`.
    pub fn new(data: &'a [u8], spans: &'a [HashedSpan]) -> (t: Self)
        ensures
            t.data@ == data@,
            t.spans@ == spans@,
    {
        Tokenization { data, spans }
    }

    /// The bytes.
    pub fn data(&self) -> (d: &'a [u8])
        ensures
            d@ == self.data@,
    {
        self.data
    }

    /// Number of tokens.
    pub fn nb_tokens(&self) -> (n: usize)
        ensures
            n == self.spans@.len(),
            n == self.tokens().len(),
    {
        self.spans.len()
    }

    /// The span of token `n`.
    pub fn nth_span(&self, n: usize) -> (span: HashedSpan)
        requires
            n < self.spans@.len(),
        ensures
            span == self.spans@[n as int],
    {
        self.spans[n]
    }
}

/// The class of a byte.
pub fn classify_byte(b: u8) -> (kind: TokenKind)
    ensures
        kind == kind_of(b),
{
    if (0x30 <= b && b <= 0x39) || (0x41 <= b && b <= 0x5a) || (0x61 <= b && b <= 0x7a) || b
        == 0x5f {
        TokenKind::Word
    } else if b == 0x20 || b == 0x09 || b == 0x0a {
        TokenKind::Spaces
    } else {
        TokenKind::Other
    }
}

/// The hash of `data[lo..hi]`.
pub fn hash_slice(data: &[u8], lo: usize, hi: usize) -> (h: u32)
    requires
        lo <= hi <= data@.len(),
    ensures
        h == hash_of(data@.subrange(lo as int, hi as int)),
{
    let mut h: u32 = HASH_BASIS;
    let mut i: usize = lo;
    while i < hi
        invariant
            lo <= i <= hi <= data@.len(),
            h == hash_of(data@.subrange(lo as int, i as int)),
        decreases hi - i,
    {
        proof {
            let next = data@.subrange(lo as int, i + 1);
            assert(next.drop_last() =~= data@.subrange(lo as int, i as int));
            assert(next.last() == data@[i as int]);
        }
        h = (h ^ (data[i] as u32)).wrapping_mul(HASH_PRIME);
        i += 1;
    }
    h
}

/// Whether token `i` of `a` and token `j` of `b` hold the same bytes. The
/// hashes are compared first, and the bytes only where the hashes agree.
pub fn tokens_equal(a: &Tokenization, i: usize, b: &Tokenization, j: usize) -> (same: bool)
    requires
        a.wf(),
        b.wf(),
        i < a.spans@.len(),
        j < b.spans@.len(),
    ensures
        same == (a.tokens()[i as int] == b.tokens()[j as int]),
{
    let sa = a.spans[i];
    let sb = b.spans[j];
    let ghost ta = span_bytes(a.data@, sa);
    let ghost tb = span_bytes(b.data@, sb);
    assert(span_ok(a.data@, sa) && span_ok(b.data@, sb));
    assert(a.tokens()[i as int] == ta && b.tokens()[j as int] == tb);
    if sa.hash != sb.hash || sa.length != sb.length {
        assert(ta.len() == sa.length && tb.len() == sb.length);
        return false;
    }
    let a_len = a.data.len();
    let b_len = b.data.len();
    let mut k: usize = 0;
    while k < sa.length
        invariant
            k <= sa.length,
            a_len == a.data@.len(),
            b_len == b.data@.len(),
            a.tokens()[i as int] == ta,
            b.tokens()[j as int] == tb,
            sa.length == sb.length,
            sa.offset + sa.length <= a.data@.len(),
            sb.offset + sb.length <= b.data@.len(),
            ta == span_bytes(a.data@, sa),
            tb == span_bytes(b.data@, sb),
            forall|q: int| 0 <= q < k ==> ta[q] == tb[q],
        decreases sa.length - k,
    {
        if a.data[sa.offset + k] != b.data[sb.offset + k] {
            assert(ta[k as int] != tb[k as int]);
            return false;
        }
        k += 1;
    }
    assert(ta =~= tb);
    true
}

/// `word_run` counts word bytes only, and stops at the first other byte.
pub proof fn lemma_word_run(src: Seq<u8>, pos: int)
    requires
        0 <= pos <= src.len(),
    ensures
        pos + word_run(src, pos) <= src.len(),
        forall|q: int| pos <= q < pos + word_run(src, pos) ==> is_word_byte(src[q]),
        pos + word_run(src, pos) < src.len() ==> !is_word_byte(src[pos + word_run(src, pos)]),
    decreases src.len() - pos,
{
    if pos < src.len() && is_word_byte(src[pos]) {
        lemma_word_run(src, pos + 1);
    }
}

/// Tokenizes `src` from the position `ofs` on, and appends the tokens to
/// `tokens`.
#[verifier::rlimit(40)]
pub fn tokenize(src: &[u8], ofs: usize, tokens: &mut Vec<HashedSpan>)
    ensures
        final(tokens)@.len() >= old(tokens)@.len(),
        final(tokens)@.subrange(0, old(tokens)@.len() as int) == old(tokens)@,
        extents_of(final(tokens)@.subrange(old(tokens)@.len() as int, final(tokens)@.len() as int))
            == token_extents(src@, ofs as int),
        forall|i: int|
            old(tokens)@.len() <= i < final(tokens)@.len() ==> span_ok(
                src@,
                #[trigger] final(tokens)@[i],
            ),
{
    let len = src.len();
    let ghost before = tokens@;
    let mut pos: usize = ofs;
    proof {
        assert(extents_of(tokens@.subrange(before.len() as int, tokens@.len() as int)) =~= Seq::<
            (int, int),
        >::empty());
    }
    while pos < len
        invariant
            len == src@.len(),
            ofs <= pos,
            tokens@.len() >= before.len(),
            tokens@.subrange(0, before.len() as int) == before,
            extents_of(tokens@.subrange(before.len() as int, tokens@.len() as int))
                + token_extents(src@, pos as int) == token_extents(src@, ofs as int),
            forall|i: int| before.len() <= i < tokens@.len() ==> span_ok(src@, #[trigger] tokens@[i]),
        decreases len - pos,
    {
        let kind = classify_byte(src[pos]);
        if kind == TokenKind::Spaces {
            pos += 1;
        } else {
            let mut end: usize = pos + 1;
            if kind == TokenKind::Word {
                while end < len && classify_byte(src[end]) == TokenKind::Word
                    invariant
                        len == src@.len(),
                        pos < end <= len,
                        end - pos - 1 + word_run(src@, end as int) == word_run(src@, pos + 1),
                    decreases len - end,
                {
                    end += 1;
                }
            }
            assert(end - pos == (if is_word_byte(src@[pos as int]) {
                1 + word_run(src@, pos + 1)
            } else {
                1
            }));
            let span = HashedSpan { offset: pos, length: end - pos, hash: hash_slice(src, pos, end) };
            let ghost prev = tokens@;
            tokens.push(span);
            proof {
                let added = prev.subrange(before.len() as int, prev.len() as int);
                let now = tokens@.subrange(before.len() as int, tokens@.len() as int);
                assert(extents_of(now) =~= extents_of(added) + seq![(pos as int, end - pos)]);
                assert(tokens@.subrange(0, before.len() as int) =~= prev.subrange(
                    0,
                    before.len() as int,
                ));
                assert(extents_of(added) + (seq![(pos as int, end - pos)] + token_extents(
                    src@,
                    end as int,
                )) =~= extents_of(now) + token_extents(src@, end as int));
            }
            pos = end;
        }
    }
    proof {
        assert(extents_of(tokens@.subrange(before.len() as int, tokens@.len() as int))
            + token_extents(src@, pos as int) =~= extents_of(
            tokens@.subrange(before.len() as int, tokens@.len() as int),
        ));
    }
}

/// The tokens from `pos` on lie in the text from `pos` on, one behind the
/// other, and none is empty.
pub proof fn lemma_token_extents(src: Seq<u8>, pos: int)
    requires
        0 <= pos,
    ensures
        forall|i: int|
            0 <= i < token_extents(src, pos).len() ==> pos <= (#[trigger] token_extents(
                src,
                pos,
            )[i]).0 && 0 < token_extents(src, pos)[i].1 && token_extents(src, pos)[i].0
                + token_extents(src, pos)[i].1 <= src.len(),
        forall|i: int, j: int|
            0 <= i < j < token_extents(src, pos).len() ==> (#[trigger] token_extents(
                src,
                pos,
            )[i]).0 + token_extents(src, pos)[i].1 <= (#[trigger] token_extents(src, pos)[j]).0,
        pos <= src.len() ==> token_extents(src, pos).len() <= src.len() - pos,
        pos > src.len() ==> token_extents(src, pos).len() == 0,
    decreases src.len() - pos,
{
    let ext = token_extents(src, pos);
    if pos >= src.len() {
    } else if is_space_byte(src[pos]) {
        lemma_token_extents(src, pos + 1);
    } else {
        let len: int = if is_word_byte(src[pos]) {
            (1 + word_run(src, pos + 1)) as int
        } else {
            1
        };
        lemma_word_run(src, pos + 1);
        lemma_token_extents(src, pos + len);
        let rest = token_extents(src, pos + len);
        assert(ext =~= seq![(pos, len)] + rest);
        assert forall|i: int| 0 <= i < ext.len() implies pos <= (#[trigger] ext[i]).0 && 0
            < ext[i].1 && ext[i].0 + ext[i].1 <= src.len() by {
            if i > 0 {
                assert(ext[i] == rest[i - 1]);
            }
        }
        assert forall|i: int, j: int| 0 <= i < j < ext.len() implies (#[trigger] ext[i]).0
            + ext[i].1 <= (#[trigger] ext[j]).0 by {
            assert(ext[j] == rest[j - 1]);
            if i > 0 {
                assert(ext[i] == rest[i - 1]);
            }
        }
    }
}

/// The `len` bytes from `start` on are either a run of word bytes that
/// goes on to the first byte that is no word byte, or one byte that is
/// neither a word byte nor a space.
pub open spec fn token_shaped(src: Seq<u8>, start: int, len: int) -> bool {
    if is_word_byte(src[start]) {
        &&& 0 <= start < start + len <= src.len()
        &&& forall|q: int| start <= q < start + len ==> is_word_byte(#[trigger] src[q])
        &&& start + len == src.len() || !is_word_byte(src[start + len])
    } else {
        0 <= start < src.len() && len == 1 && !is_space_byte(src[start])
    }
}

/// Every token has the shape of a token.
pub proof fn lemma_token_shape(src: Seq<u8>, pos: int)
    requires
        0 <= pos,
    ensures
        forall|i: int|
            0 <= i < token_extents(src, pos).len() ==> token_shaped(
                src,
                (#[trigger] token_extents(src, pos)[i]).0,
                token_extents(src, pos)[i].1,
            ),
    decreases src.len() - pos,
{
    let ext = token_extents(src, pos);
    if pos >= src.len() {
    } else if is_space_byte(src[pos]) {
        lemma_token_shape(src, pos + 1);
        assert(ext == token_extents(src, pos + 1));
    } else {
        let len: int = if is_word_byte(src[pos]) {
            (1 + word_run(src, pos + 1)) as int
        } else {
            1
        };
        lemma_word_run(src, pos + 1);
        lemma_token_shape(src, pos + len);
        let rest = token_extents(src, pos + len);
        assert(ext =~= seq![(pos, len)] + rest);
        assert(token_shaped(src, pos, len));
        assert(ext[0] == (pos, len));
        assert forall|i: int| 0 <= i < ext.len() implies token_shaped(
            src,
            (#[trigger] ext[i]).0,
            ext[i].1,
        ) by {
            if i > 0 {
                assert(ext[i] == rest[i - 1]);
            }
        }
    }
}

/// Every byte from `pos` on that is no space lies in a token.
pub proof fn lemma_tokens_cover(src: Seq<u8>, pos: int, q: int)
    requires
        0 <= pos <= q < src.len(),
        !is_space_byte(src[q]),
    ensures
        exists|i: int|
            0 <= i < token_extents(src, pos).len() && (#[trigger] token_extents(src, pos)[i]).0
                <= q < token_extents(src, pos)[i].0 + token_extents(src, pos)[i].1,
    decreases src.len() - pos,
{
    let ext = token_extents(src, pos);
    if is_space_byte(src[pos]) {
        lemma_tokens_cover(src, pos + 1, q);
    } else {
        let len: int = if is_word_byte(src[pos]) {
            (1 + word_run(src, pos + 1)) as int
        } else {
            1
        };
        lemma_word_run(src, pos + 1);
        let rest = token_extents(src, pos + len);
        assert(ext =~= seq![(pos, len)] + rest);
        if q < pos + len {
            assert(ext[0].0 <= q < ext[0].0 + ext[0].1);
        } else {
            lemma_tokens_cover(src, pos + len, q);
            let i = choose|i: int|
                0 <= i < rest.len() && (#[trigger] rest[i]).0 <= q < rest[i].0 + rest[i].1;
            assert(ext[i + 1] == rest[i]);
        }
    }
}

/// Spans that fit the data fit it still when bytes are appended to it, and
/// stand for the same bytes.
pub proof fn lemma_spans_ok_extend(data: Seq<u8>, more: Seq<u8>, spans: Seq<HashedSpan>)
    requires
        spans_ok(data, spans),
    ensures
        spans_ok(data + more, spans),
        forall|i: int|
            0 <= i < spans.len() ==> span_bytes(data + more, #[trigger] spans[i]) == span_bytes(
                data,
                spans[i],
            ),
{
    assert forall|i: int| 0 <= i < spans.len() implies span_ok(data + more, #[trigger] spans[i])
        && span_bytes(data + more, spans[i]) == span_bytes(data, spans[i]) by {
        assert(span_ok(data, spans[i]));
        assert(span_bytes(data + more, spans[i]) =~= span_bytes(data, spans[i]));
    }
}

} // verus!

use diffr::lines::{add_raw_line, LineSplit};
use diffr::token::{
    classify_byte, hash_slice, tokenize, tokens_equal, HashedSpan, TokenKind, Tokenization,
};

fn extents(tokens: &[HashedSpan]) -> Vec<(usize, usize)> {
    tokens.iter().map(|t| (t.offset, t.length)).collect()
}

#[test]
fn classify_byte_knows_the_three_classes() {
    for b in 0u8..=255 {
        let expected = if b.is_ascii_alphanumeric() || b == b'_' {
            TokenKind::Word
        } else if b == b' ' || b == b'\t' || b == b'\n' {
            TokenKind::Spaces
        } else {
            TokenKind::Other
        };
        assert_eq!(classify_byte(b), expected);
    }
}

#[test]
fn hash_slice_is_fnv1a() {
    assert_eq!(hash_slice(b"", 0, 0), 0x811c9dc5);
    assert_eq!(hash_slice(b"a", 0, 1), 0xe40c292c);
    assert_eq!(hash_slice(b"foobar", 0, 6), 0xbf9cf968);
    assert_eq!(hash_slice(b"xxfoobarxx", 2, 8), 0xbf9cf968);
}

#[test]
fn tokenize_splits_words_and_punctuation() {
    let mut tokens = Vec::new();
    tokenize(b"foo bar", 0, &mut tokens);
    assert_eq!(extents(&tokens), vec![(0, 3), (4, 3)]);

    let mut tokens = Vec::new();
    tokenize(b"a+b", 0, &mut tokens);
    assert_eq!(extents(&tokens), vec![(0, 1), (1, 1), (2, 1)]);

    let mut tokens = Vec::new();
    tokenize(b"x_1 = y(2);\n", 0, &mut tokens);
    assert_eq!(
        extents(&tokens),
        vec![(0, 3), (4, 1), (6, 1), (7, 1), (8, 1), (9, 1), (10, 1)]
    );
}

#[test]
fn tokenize_leaves_out_spaces() {
    let mut tokens = Vec::new();
    tokenize(b" \t\n  ", 0, &mut tokens);
    assert!(tokens.is_empty());
    tokenize(b"\t a \n", 0, &mut tokens);
    assert_eq!(extents(&tokens), vec![(2, 1)]);
}

#[test]
fn tokenize_treats_other_white_space_as_punctuation() {
    let mut tokens = Vec::new();
    tokenize(b"a\r\x0cb", 0, &mut tokens);
    assert_eq!(extents(&tokens), vec![(0, 1), (1, 1), (2, 1), (3, 1)]);
}

#[test]
fn tokenize_starts_at_offset_and_appends() {
    let data = b"foo bar baz";
    let mut tokens = Vec::new();
    tokenize(data, 4, &mut tokens);
    assert_eq!(extents(&tokens), vec![(4, 3), (8, 3)]);
    tokenize(data, 9, &mut tokens);
    assert_eq!(extents(&tokens), vec![(4, 3), (8, 3), (9, 2)]);
    tokenize(data, 11, &mut tokens);
    tokenize(data, 50, &mut tokens);
    assert_eq!(tokens.len(), 3);
}

#[test]
fn tokenize_records_the_hash_of_each_token() {
    let data = b"foobar a foobar";
    let mut tokens = Vec::new();
    tokenize(data, 0, &mut tokens);
    assert_eq!(tokens.len(), 3);
    assert_eq!(tokens[0].hash, 0xbf9cf968);
    assert_eq!(tokens[1].hash, 0xe40c292c);
    assert_eq!(tokens[2].hash, tokens[0].hash);
}

#[test]
fn tokens_equal_compares_bytes() {
    let data = b"ab cd ab abc";
    let mut spans = Vec::new();
    tokenize(data, 0, &mut spans);
    let t = Tokenization::new(data, &spans);
    assert_eq!(t.nb_tokens(), 4);
    assert!(tokens_equal(&t, 0, &t, 2));
    assert!(tokens_equal(&t, 1, &t, 1));
    assert!(!tokens_equal(&t, 0, &t, 1));
    assert!(!tokens_equal(&t, 0, &t, 3));
}

#[test]
fn tokens_equal_falls_back_to_bytes_on_equal_hashes() {
    let data = b"abcd";
    let spans = vec![
        HashedSpan { offset: 0, length: 2, hash: hash_slice(data, 0, 2) },
        HashedSpan { offset: 2, length: 2, hash: hash_slice(data, 2, 4) },
    ];
    let t = Tokenization::new(data, &spans);
    assert_eq!(t.nth_span(1), spans[1]);
    assert_eq!(t.data(), data);
    assert!(!tokens_equal(&t, 0, &t, 1));
    assert!(tokens_equal(&t, 0, &t, 0));
}

#[test]
fn line_split_records_lines() {
    let mut lines = LineSplit::new();
    assert_eq!(lines.len(), 0);
    assert!(lines.iter().is_empty());
    lines.append_line(b"+abc\n");
    lines.append_line(b"-de");
    assert_eq!(lines.iter(), vec![(0, 5), (5, 8)]);
    lines.append_line(b"f\n");
    assert_eq!(lines.data(), b"+abc\n-def\n");
    assert_eq!(lines.len(), 10);
    assert_eq!(lines.iter(), vec![(0, 5), (5, 10)]);
    lines.append_line(b"");
    assert_eq!(lines.iter(), vec![(0, 5), (5, 10)]);
    lines.append_line(b"x\ny\n\nz");
    assert_eq!(lines.iter(), vec![(0, 5), (5, 10), (10, 12), (12, 14), (14, 15), (15, 16)]);
    lines.clear();
    assert_eq!(lines.len(), 0);
    assert!(lines.iter().is_empty());
}

#[test]
fn add_raw_line_strips_escape_sequences() {
    let mut lines = LineSplit::new();
    add_raw_line(&mut lines, b"\x1b[31m-abc\x1b[0m\n");
    assert_eq!(lines.data(), b"-abc\n");
    assert_eq!(lines.iter(), vec![(0, 5)]);
    add_raw_line(&mut lines, b"+a\x1b[1m\x1b[2mb\x1b[mc\n");
    assert_eq!(lines.data(), b"-abc\n+abc\n");
    assert_eq!(lines.iter(), vec![(0, 5), (5, 10)]);
    add_raw_line(&mut lines, b"\x1b[0m");
    add_raw_line(&mut lines, b"");
    assert_eq!(lines.data(), b"-abc\n+abc\n");
}

#[test]
fn add_raw_line_keeps_unfinished_sequences() {
    let mut lines = LineSplit::new();
    add_raw_line(&mut lines, b"+ab\x1b[31cd\n");
    assert_eq!(lines.data(), b"+ab\x1b[31cd\n");
    lines.clear();
    add_raw_line(&mut lines, b"\x1b[0m+\x1b[\x1b[x");
    assert_eq!(lines.data(), b"+\x1b[\x1b[x");
    lines.clear();
    add_raw_line(&mut lines, b"+a\x1b[1mb\x1b[");
    assert_eq!(lines.data(), b"+ab\x1b[");
}

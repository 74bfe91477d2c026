use diffr::escape::{
    first_after_escape, index_of, skip_all_escape_code, skip_escape_code, skip_token,
};

#[test]
fn skip_all_escape_code_counts_every_sequence() {
    assert_eq!(skip_all_escape_code(b"\x1b[42m\x1b[33m@@@"), 10);
}

#[test]
fn skip_all_escape_code_ignores_unfinished_sequence() {
    assert_eq!(skip_all_escape_code(b"\x1b[42@@@"), 0);
}

#[test]
fn skip_all_escape_code_on_plain_and_empty_input() {
    assert_eq!(skip_all_escape_code(b""), 0);
    assert_eq!(skip_all_escape_code(b"abc"), 0);
    assert_eq!(skip_all_escape_code(b"\x1b"), 0);
    assert_eq!(skip_all_escape_code(b"\x1b["), 0);
    assert_eq!(skip_all_escape_code(b"\x1b[m"), 3);
    assert_eq!(skip_all_escape_code(b"\x1b[m\x1b[1;31m"), 10);
    assert_eq!(skip_all_escape_code(b"a\x1b[m"), 0);
}

#[test]
fn skip_all_escape_code_stops_before_unfinished_sequence() {
    assert_eq!(skip_all_escape_code(b"\x1b[0m\x1b[31"), 4);
}

#[test]
fn skipping_again_consumes_nothing() {
    let inputs: Vec<&[u8]> = vec![
        b"\x1b[42m\x1b[33m@@@",
        b"\x1b[42@@@",
        b"\x1b[m\x1b[m",
        b"",
        b"plain",
        b"\x1b[0m\x1b[31",
    ];
    for input in inputs {
        let n = skip_all_escape_code(input);
        assert!(n <= input.len());
        assert_eq!(skip_all_escape_code(&input[n..]), 0);
    }
}

#[test]
fn skip_escape_code_takes_one_sequence() {
    assert_eq!(skip_escape_code(b"\x1b[42m\x1b[33m@@@"), Some(5));
    assert_eq!(skip_escape_code(b"\x1b[m"), Some(3));
    assert_eq!(skip_escape_code(b"\x1b[42"), None);
    assert_eq!(skip_escape_code(b"x\x1b[42m"), None);
    assert_eq!(skip_escape_code(b""), None);
}

#[test]
fn first_after_escape_finds_marker() {
    assert_eq!(first_after_escape(b"\x1b[42m\x1b[33m@@@"), Some(b'@'));
    assert_eq!(first_after_escape(b"+abc"), Some(b'+'));
    assert_eq!(first_after_escape(b"\x1b[31m-abc\x1b[0m\n"), Some(b'-'));
    assert_eq!(first_after_escape(b"\x1b[42@@@"), Some(0x1b));
}

#[test]
fn first_after_escape_is_none_without_bytes() {
    assert_eq!(first_after_escape(b""), None);
    assert_eq!(first_after_escape(b"\x1b[0m"), None);
    assert_eq!(first_after_escape(b"\x1b[0m\x1b[1m"), None);
}

#[test]
fn index_of_returns_first_occurrence() {
    assert_eq!(index_of(b"abcabc", b'b'), Some(1));
    assert_eq!(index_of(b"abcabc", b'a'), Some(0));
    assert_eq!(index_of(b"abcabc", b'c'), Some(2));
    assert_eq!(index_of(b"abcabc", b'z'), None);
    assert_eq!(index_of(b"", b'a'), None);
}

#[test]
fn skip_token_stops_at_next_sequence() {
    assert_eq!(skip_token(b""), 0);
    assert_eq!(skip_token(b"abc"), 3);
    assert_eq!(skip_token(b"abc\x1b[0m"), 3);
    assert_eq!(skip_token(b"\x1b[0mabc"), 0);
    assert_eq!(skip_token(b"ab\x1bc"), 4);
    assert_eq!(skip_token(b"ab\x1b"), 3);
    assert_eq!(skip_token(b"ab\x1b[zz"), 2);
}

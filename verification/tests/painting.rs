use diffr::config::{color_spec, AppConfig, Color, Face};
use diffr::driver::Driver;
use diffr::hunk::HunkBuffer;
use diffr::paint::{is_space, output, paint_line, Chunk};

fn chunk(face: Face, text: &[u8], newline: bool) -> Chunk {
    Chunk { face, text: text.to_vec(), newline }
}

fn flat(chunks: &[Chunk]) -> Vec<u8> {
    let mut bytes = Vec::new();
    for c in chunks {
        bytes.extend_from_slice(&c.text);
        if c.newline {
            bytes.push(b'\n');
        }
    }
    bytes
}

fn run(lines: &[&[u8]]) -> Vec<Chunk> {
    let mut driver = Driver::new(AppConfig::default());
    let mut out = Vec::new();
    for line in lines {
        driver.feed_line(line, &mut out);
    }
    driver.finish(&mut out);
    out
}

fn strip(line: &[u8]) -> Vec<u8> {
    let mut lines = diffr::lines::LineSplit::new();
    diffr::lines::add_raw_line(&mut lines, line);
    lines.data().to_vec()
}

#[test]
fn is_space_is_ascii_white_space() {
    for b in 0u8..=255 {
        assert_eq!(is_space(b), b.is_ascii_whitespace());
    }
}

#[test]
fn output_keeps_the_line_feed_apart() {
    let face = color_spec(Some(Color::Red), None, false);
    let mut out = Vec::new();
    output(b"abc\n", 0, 4, &face, &mut out);
    assert_eq!(out, vec![chunk(face, b"abc", true)]);
    output(b"abc\n", 1, 3, &face, &mut out);
    assert_eq!(out.len(), 2);
    assert_eq!(out[1], chunk(face, b"bc", false));
    output(b"abc\n", 3, 4, &face, &mut out);
    assert_eq!(out[2], chunk(face, b"", true));
}

#[test]
fn output_of_an_empty_range_is_nothing() {
    let face = Face::plain();
    let mut out = Vec::new();
    output(b"abc", 2, 2, &face, &mut out);
    output(b"abc", 3, 2, &face, &mut out);
    output(b"abc", 3, 9, &face, &mut out);
    output(b"", 0, 0, &face, &mut out);
    assert!(out.is_empty());
}

#[test]
fn output_cuts_the_range_to_the_buffer() {
    let face = Face::plain();
    let mut out = Vec::new();
    output(b"abc", 1, 100, &face, &mut out);
    assert_eq!(out, vec![chunk(face, b"bc", false)]);
}

#[test]
fn paint_line_highlights_what_is_not_shared() {
    let plain = color_spec(Some(Color::Green), None, false);
    let high = color_spec(Some(Color::White), Some(Color::Green), true);
    let data = b"+foo baz qux\n";
    let shared = vec![(1, 5), (9, 13)];
    let mut cursor = 0;
    let mut out = Vec::new();
    paint_line(data, (0, 13), &plain, &high, &shared, &mut cursor, &mut out);
    assert_eq!(
        out,
        vec![
            chunk(plain, b"+", false),
            chunk(plain, b"foo ", false),
            chunk(high, b"baz ", false),
            chunk(plain, b"qux", true),
        ]
    );
    assert_eq!(cursor, 2);
}

#[test]
fn paint_line_keeps_an_interval_that_goes_on() {
    let plain = color_spec(Some(Color::Red), None, false);
    let high = color_spec(Some(Color::White), Some(Color::Red), true);
    let data = b"-ab\n-cd ef\n";
    let shared = vec![(2, 7), (8, 11)];
    let mut cursor = 0;
    let mut out = Vec::new();
    paint_line(data, (0, 4), &plain, &high, &shared, &mut cursor, &mut out);
    assert_eq!(cursor, 0);
    assert_eq!(
        out,
        vec![chunk(plain, b"-", false), chunk(high, b"a", false), chunk(plain, b"b", true)]
    );
    out.clear();
    paint_line(data, (4, 11), &plain, &high, &shared, &mut cursor, &mut out);
    assert_eq!(cursor, 2);
    assert_eq!(
        out,
        vec![
            chunk(plain, b"-", false),
            chunk(plain, b"cd", false),
            chunk(high, b" ", false),
            chunk(plain, b"ef", true),
        ]
    );
}

#[test]
fn paint_line_shows_marker_and_indentation_plainly() {
    let plain = color_spec(Some(Color::Green), None, false);
    let high = color_spec(Some(Color::White), Some(Color::Green), true);
    let data = b"+ \t  x\n";
    let shared = Vec::new();
    let mut cursor = 0;
    let mut out = Vec::new();
    paint_line(data, (0, 7), &plain, &high, &shared, &mut cursor, &mut out);
    assert_eq!(out, vec![chunk(plain, b"+ \t  ", false), chunk(high, b"x", true)]);
}

#[test]
fn paint_line_passes_over_intervals_before_the_line() {
    let plain = color_spec(Some(Color::Green), None, false);
    let high = color_spec(Some(Color::White), Some(Color::Green), true);
    let data = b"-aa\n+  bb cc\n";
    let shared = vec![(1, 3), (4, 6), (7, 10)];
    let mut cursor = 0;
    let mut out = Vec::new();
    paint_line(data, (4, 13), &plain, &high, &shared, &mut cursor, &mut out);
    assert_eq!(
        out,
        vec![chunk(plain, b"+  ", false), chunk(plain, b"bb ", false), chunk(high, b"cc", true)]
    );
    assert_eq!(cursor, 3);
}

#[test]
fn line_of_white_space_only_is_plain() {
    let config = AppConfig::default();
    let out = run(&[b"@@ -1 +1 @@\n", b"-a\n", b"+ \t \n", b"+\n", b"-\n"]);
    assert_eq!(
        out,
        vec![
            chunk(Face::plain(), b"@@ -1 +1 @@", true),
            chunk(config.removed_face, b"-", false),
            chunk(config.refine_removed_face, b"a", true),
            chunk(config.added_face, b"+ \t ", true),
            chunk(config.added_face, b"+", true),
            chunk(config.removed_face, b"-", true),
        ]
    );
}

#[test]
fn refines_a_changed_word() {
    let config = AppConfig::default();
    let out = run(&[b"@@ -1,1 +1,1 @@\n", b"-foo bar\n", b"+foo baz\n"]);
    assert_eq!(
        out,
        vec![
            chunk(Face::plain(), b"@@ -1,1 +1,1 @@", true),
            chunk(config.removed_face, b"-", false),
            chunk(config.removed_face, b"foo ", false),
            chunk(config.refine_removed_face, b"bar", true),
            chunk(config.added_face, b"+", false),
            chunk(config.added_face, b"foo ", false),
            chunk(config.refine_added_face, b"baz", true),
        ]
    );
}

#[test]
fn equal_lines_get_no_highlight() {
    let config = AppConfig::default();
    let out = run(&[b"context\n", b"@@ hunk @@\n", b"-aaa\n", b"+aaa\n"]);
    assert_eq!(
        out,
        vec![
            chunk(Face::plain(), b"context", true),
            chunk(Face::plain(), b"@@ hunk @@", true),
            chunk(config.removed_face, b"-", false),
            chunk(config.removed_face, b"aaa", true),
            chunk(config.added_face, b"+", false),
            chunk(config.added_face, b"aaa", true),
        ]
    );
    assert!(out.iter().all(|c| c.face != config.refine_removed_face));
    assert!(out.iter().all(|c| c.face != config.refine_added_face));
}

#[test]
fn input_with_escape_sequences() {
    let config = AppConfig::default();
    let out = run(&[b"\x1b[33m@@\x1b[0m\n", b"\x1b[31m-abc\x1b[0m\n", b"+abd\n"]);
    assert_eq!(
        out,
        vec![
            chunk(Face::plain(), b"\x1b[33m@@\x1b[0m", true),
            chunk(config.removed_face, b"-", false),
            chunk(config.refine_removed_face, b"abc", true),
            chunk(config.added_face, b"+", false),
            chunk(config.refine_added_face, b"abd", true),
        ]
    );
}

#[test]
fn lines_outside_hunks_pass_through() {
    let lines: Vec<&[u8]> = vec![
        b"diff --git a/x b/x\n",
        b"index 1..2\n",
        b"+not in a hunk\n",
        b"-nor this\n",
        b" nor this\n",
        b"\n",
        b"\x1b[1mbold\x1b[0m\n",
        b"last line without line feed",
    ];
    let out = run(&lines);
    assert_eq!(out.len(), lines.len());
    for (c, line) in out.iter().zip(lines.iter()) {
        assert_eq!(c.face, Face::plain());
        assert_eq!(flat(std::slice::from_ref(c)), line.to_vec());
    }
    assert_eq!(flat(&out), lines.concat());
}

#[test]
fn any_other_line_ends_the_hunk() {
    let config = AppConfig::default();
    let mut driver = Driver::new(config);
    let mut out = Vec::new();
    driver.feed_line(b"@@ -1 +1 @@\n", &mut out);
    assert!(driver.in_hunk);
    assert_eq!(out.len(), 1);
    driver.feed_line(b"-a\n", &mut out);
    driver.feed_line(b" b\n", &mut out);
    driver.feed_line(b"+c\n", &mut out);
    assert_eq!(out.len(), 1);
    assert_eq!(driver.pending_bytes(), 9);
    driver.feed_line(b"\n", &mut out);
    assert!(!driver.in_hunk);
    assert_eq!(driver.pending_bytes(), 0);
    assert_eq!(
        out[1..].to_vec(),
        vec![
            chunk(config.removed_face, b"-", false),
            chunk(config.refine_removed_face, b"a", true),
            chunk(Face::plain(), b" b", true),
            chunk(config.added_face, b"+", false),
            chunk(config.refine_added_face, b"c", true),
            chunk(Face::plain(), b"", true),
        ]
    );
    driver.feed_line(b"+d\n", &mut out);
    assert_eq!(out.last(), Some(&chunk(Face::plain(), b"+d", true)));
    let before = out.len();
    driver.finish(&mut out);
    assert_eq!(out.len(), before);
}

#[test]
fn a_header_begins_the_next_hunk() {
    let config = AppConfig::default();
    let out = run(&[b"@@ a @@\n", b"-x\n", b"@@ b @@\n", b"+x\n"]);
    assert_eq!(
        out,
        vec![
            chunk(Face::plain(), b"@@ a @@", true),
            chunk(config.removed_face, b"-", false),
            chunk(config.refine_removed_face, b"x", true),
            chunk(Face::plain(), b"@@ b @@", true),
            chunk(config.added_face, b"+", false),
            chunk(config.refine_added_face, b"x", true),
        ]
    );
}

#[test]
fn output_of_a_hunk_holds_the_stripped_lines() {
    let hunks: Vec<Vec<&[u8]>> = vec![
        vec![b"-foo bar\n", b"+foo baz\n"],
        vec![b"\x1b[31m-let x = f(a, b);\x1b[m\n", b" keep\n", b"\x1b[32m+let x = f(a, c, b);\x1b[m\n"],
        vec![b"-a\n", b"-b\n", b"+b\n", b"+a\n", b"-c \x1b[1mc\x1b[0m c\n", b"+c c c c"],
        vec![b"+\x1b[31open\n", b"-\tindented(x)\n", b"+\tindented(x, y)\n"],
        vec![b" only context\n"],
    ];
    for hunk in hunks {
        let mut driver = Driver::new(AppConfig::default());
        let mut out = Vec::new();
        driver.feed_line(b"@@\n", &mut out);
        out.clear();
        let mut expected = Vec::new();
        for line in &hunk {
            driver.feed_line(line, &mut out);
            expected.extend_from_slice(&strip(line));
        }
        assert!(out.is_empty());
        driver.finish(&mut out);
        assert_eq!(flat(&out), expected);
    }
}

#[test]
fn painted_lines_begin_with_their_marker() {
    let config = AppConfig::default();
    let out = run(&[b"@@\n", b"\x1b[31m-  removed line\n", b"+added line\n", b"-x\n", b"+  x\n"]);
    let firsts: Vec<&Chunk> = out
        .iter()
        .filter(|c| c.text.first() == Some(&b'-') || c.text.first() == Some(&b'+'))
        .collect();
    assert_eq!(firsts.len(), 4);
    assert_eq!(firsts[0], &chunk(config.removed_face, b"-  ", false));
    assert_eq!(firsts[1], &chunk(config.added_face, b"+", false));
    assert_eq!(firsts[2], &chunk(config.removed_face, b"-", false));
    assert_eq!(firsts[3], &chunk(config.added_face, b"+  ", false));
}

#[test]
fn hunk_buffer_collects_tokens_per_side() {
    let mut buffer = HunkBuffer::new(AppConfig::default());
    buffer.push_removed(b"-  foo(bar)\n");
    buffer.push_added(b"\x1b[32m+ foo(baz)\n");
    buffer.append_context(b" ctx\n");
    assert_eq!(buffer.lines.data(), b"-  foo(bar)\n+ foo(baz)\n ctx\n");
    let removed: Vec<(usize, usize)> =
        buffer.removed_tokens.iter().map(|t| (t.offset, t.length)).collect();
    let added: Vec<(usize, usize)> =
        buffer.added_tokens.iter().map(|t| (t.offset, t.length)).collect();
    assert_eq!(removed, vec![(3, 3), (6, 1), (7, 3), (10, 1)]);
    assert_eq!(added, vec![(14, 3), (17, 1), (18, 3), (21, 1)]);
    let mut out = Vec::new();
    buffer.process(&mut out);
    assert_eq!(buffer.diff_buffer.len(), 2);
    assert_eq!(buffer.lines.len(), 0);
    assert!(buffer.added_tokens.is_empty());
    assert!(buffer.removed_tokens.is_empty());
    let config = AppConfig::default();
    assert_eq!(
        out,
        vec![
            chunk(config.removed_face, b"-  ", false),
            chunk(config.removed_face, b"foo(", false),
            chunk(config.refine_removed_face, b"bar", false),
            chunk(config.removed_face, b")", true),
            chunk(config.added_face, b"+ ", false),
            chunk(config.added_face, b"foo(", false),
            chunk(config.refine_added_face, b"baz", false),
            chunk(config.added_face, b")", true),
            chunk(Face::plain(), b" ctx", true),
        ]
    );
}

#[test]
fn normalization_shows_in_the_painted_hunk() {
    let config = AppConfig::default();
    let out = run(&[b"@@\n", b"-a ,;\n", b"+a ,,;\n"]);
    assert_eq!(
        out[1..].to_vec(),
        vec![
            chunk(config.removed_face, b"-", false),
            chunk(config.removed_face, b"a ,;", true),
            chunk(config.added_face, b"+", false),
            chunk(config.added_face, b"a ", false),
            chunk(config.refine_added_face, b",", false),
            chunk(config.added_face, b",;", true),
        ]
    );
}

#[test]
fn generated_hunks_keep_their_bytes() {
    let mut state: u64 = 0x9e3779b97f4a7c15;
    let mut next = move |bound: u64| {
        state ^= state << 13;
        state ^= state >> 7;
        state ^= state << 17;
        state % bound
    };
    let pieces: Vec<&[u8]> = vec![
        b"a", b"b", b"foo", b" ", b"  ", b"\t", b"(", b")", b",", b";", b"=", b"\x1b[1m",
        b"\x1b[0m", b"\x1b[", b"\x1b", b"m", b"x1", b"_", b"\r",
    ];
    for _ in 0..200 {
        let mut driver = Driver::new(AppConfig::default());
        let mut out = Vec::new();
        driver.feed_line(b"@@ -0,0 +0,0 @@\n", &mut out);
        out.clear();
        let mut expected = Vec::new();
        let lines = 1 + next(6);
        for _ in 0..lines {
            let mut line: Vec<u8> = Vec::new();
            for _ in 0..next(3) {
                line.extend_from_slice(b"\x1b[32m");
            }
            line.push(b"+- "[next(3) as usize]);
            for _ in 0..next(9) {
                line.extend_from_slice(pieces[next(pieces.len() as u64) as usize]);
            }
            line.push(b'\n');
            driver.feed_line(&line, &mut out);
            expected.extend_from_slice(&strip(&line));
        }
        assert!(out.is_empty());
        assert_eq!(driver.pending_bytes(), expected.len());
        driver.finish(&mut out);
        assert_eq!(flat(&out), expected);
        assert_eq!(driver.pending_bytes(), 0);
    }
}

#[test]
fn timings_do_not_change_the_output() {
    let lines: Vec<&[u8]> = vec![b"@@ -1 +1 @@\n", b"-f(a, b)\n", b"+f(a, c, b)\n", b"done\n"];
    let plain = run(&lines);
    let mut config = AppConfig::default();
    config.debug = true;
    let mut driver = Driver::new(config);
    let mut out = Vec::new();
    for line in &lines {
        driver.feed_line(line, &mut out);
    }
    driver.finish(&mut out);
    assert_eq!(out, plain);
    let stats = &driver.hunk_buffer.stats;
    assert!(stats.do_timings());
    let mut rows = Vec::new();
    stats.report_into(&mut rows);
    assert_eq!(rows.len(), 4);
    assert_eq!(rows[3].1, stats.total_time_ms);

    let mut buffer = HunkBuffer::new(AppConfig::default());
    buffer.push_removed(b"-f(a, b)\n");
    buffer.push_added(b"+f(a, c, b)\n");
    let mut out = Vec::new();
    buffer.process_with_stats(&mut out);
    assert_eq!(out, plain[1..plain.len() - 1].to_vec());
    assert_eq!(buffer.stats.time_computing_diff_ms, 0);
    assert_eq!(buffer.stats.time_lcs_ms, 0);
    assert_eq!(buffer.stats.time_opt_lcs_ms, 0);
}

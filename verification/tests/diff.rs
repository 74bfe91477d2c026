use diffr::myers::{diff, DiffInput, DiffScratch};
use diffr::normalize::{optimize_partition, shared_runs};
use diffr::snake::{aligned, Snake};
use diffr::token::{hash_slice, tokenize, HashedSpan, Tokenization};

fn byte_tokens(data: &[u8], from: usize, to: usize) -> Vec<HashedSpan> {
    (from..to)
        .map(|i| HashedSpan { offset: i, length: 1, hash: hash_slice(data, i, i + 1) })
        .collect()
}

fn diff_bytes(a: &[u8], b: &[u8]) -> Vec<Snake> {
    let mut data = a.to_vec();
    data.extend_from_slice(b);
    let removed = byte_tokens(&data, 0, a.len());
    let added = byte_tokens(&data, a.len(), data.len());
    let input = DiffInput {
        removed: Tokenization::new(&data, &removed),
        added: Tokenization::new(&data, &added),
    };
    let mut scratch = DiffScratch::new();
    let mut snakes = vec![Snake { x0: 7, y0: 7, length: 7 }];
    diff(&input, &mut scratch, &mut snakes);
    snakes
}

fn reference_lcs(a: &[u8], b: &[u8]) -> usize {
    let mut table = vec![vec![0usize; b.len() + 1]; a.len() + 1];
    for i in 1..=a.len() {
        for j in 1..=b.len() {
            table[i][j] = if a[i - 1] == b[j - 1] {
                table[i - 1][j - 1] + 1
            } else {
                table[i - 1][j].max(table[i][j - 1])
            };
        }
    }
    table[a.len()][b.len()]
}

fn check_alignment(a: &[u8], b: &[u8], snakes: &[Snake]) -> usize {
    let mut total = 0;
    let mut x = 0;
    let mut y = 0;
    for (k, s) in snakes.iter().enumerate() {
        assert!(s.length > 0);
        assert!(s.x0 >= x && s.y0 >= y);
        if k > 0 {
            assert!(s.x0 > snakes[k - 1].x0);
            assert!(s.y0 > snakes[k - 1].y0);
        }
        assert!(s.x0 + s.length <= a.len());
        assert!(s.y0 + s.length <= b.len());
        for i in 0..s.length {
            assert_eq!(a[s.x0 + i], b[s.y0 + i]);
        }
        x = s.x0 + s.length;
        y = s.y0 + s.length;
        assert!(x == a.len() || y == b.len() || a[x] != b[y]);
        total += s.length;
    }
    total
}

#[test]
fn aligned_points() {
    assert!(aligned(&(1, 3), &(2, 2), &(3, 1)));
    assert!(!aligned(&(1, 3), &(2, 2), &(3, 2)));
}

#[test]
fn aligned_handles_extreme_coordinates() {
    assert!(aligned(&(isize::MIN, isize::MIN), &(0, 0), &(isize::MAX, isize::MAX)));
    assert!(!aligned(&(isize::MIN, isize::MIN), &(0, 0), &(isize::MAX, isize::MIN)));
    assert!(aligned(&(5, 5), &(5, 5), &(9, -3)));
    assert!(aligned(&(0, 0), &(isize::MAX, 0), &(isize::MIN, 0)));
    assert!(!aligned(&(isize::MAX, isize::MIN), &(isize::MIN, isize::MAX), &(isize::MAX, isize::MAX)));
}

#[test]
fn diff_of_the_classical_example() {
    let a = b"abcabba";
    let b = b"cbabac";
    let snakes = diff_bytes(a, b);
    assert_eq!(check_alignment(a, b, &snakes), 4);
}

#[test]
fn diff_of_equal_sequences_is_one_snake() {
    let snakes = diff_bytes(b"hello", b"hello");
    assert_eq!(snakes, vec![Snake { x0: 0, y0: 0, length: 5 }]);
}

#[test]
fn diff_with_an_empty_side_has_no_snake() {
    assert!(diff_bytes(b"", b"").is_empty());
    assert!(diff_bytes(b"abc", b"").is_empty());
    assert!(diff_bytes(b"", b"abc").is_empty());
    assert!(diff_bytes(b"abc", b"xyz").is_empty());
}

#[test]
fn diff_finds_insertions_and_deletions() {
    assert_eq!(
        diff_bytes(b"abc", b"abxc"),
        vec![Snake { x0: 0, y0: 0, length: 2 }, Snake { x0: 2, y0: 3, length: 1 }]
    );
    assert_eq!(
        diff_bytes(b"abxc", b"abc"),
        vec![Snake { x0: 0, y0: 0, length: 2 }, Snake { x0: 3, y0: 2, length: 1 }]
    );
    assert_eq!(diff_bytes(b"xabc", b"abc"), vec![Snake { x0: 1, y0: 0, length: 3 }]);
    assert_eq!(diff_bytes(b"abc", b"abcx"), vec![Snake { x0: 0, y0: 0, length: 3 }]);
}

#[test]
fn diff_matches_the_reference_on_generated_sequences() {
    let mut state: u64 = 0x2545f4914f6cdd1d;
    let mut next = move |bound: u64| {
        state ^= state << 13;
        state ^= state >> 7;
        state ^= state << 17;
        state % bound
    };
    for round in 0..300 {
        let alphabet = 1 + (round % 5) as u64;
        let n = next(14) as usize;
        let m = next(14) as usize;
        let a: Vec<u8> = (0..n).map(|_| b'a' + next(alphabet) as u8).collect();
        let b: Vec<u8> = (0..m).map(|_| b'a' + next(alphabet) as u8).collect();
        let snakes = diff_bytes(&a, &b);
        assert_eq!(check_alignment(&a, &b, &snakes), reference_lcs(&a, &b));
    }
}

#[test]
fn diff_reuses_its_scratch() {
    let data = b"one two three two one";
    let mut removed = Vec::new();
    tokenize(&data[..13], 0, &mut removed);
    let mut added = Vec::new();
    tokenize(data, 14, &mut added);
    let input = DiffInput {
        removed: Tokenization::new(data, &removed),
        added: Tokenization::new(data, &added),
    };
    assert_eq!(input.n(), 3);
    assert_eq!(input.m(), 2);
    let mut scratch = DiffScratch::new();
    let mut snakes = Vec::new();
    diff(&input, &mut scratch, &mut snakes);
    let first = snakes.clone();
    diff(&input, &mut scratch, &mut snakes);
    assert_eq!(snakes, first);
    assert_eq!(snakes.iter().map(|s| s.length).sum::<usize>(), 1);
}

#[test]
fn shared_runs_joins_touching_snakes() {
    let snakes = vec![
        Snake { x0: 0, y0: 0, length: 2 },
        Snake { x0: 2, y0: 3, length: 1 },
        Snake { x0: 5, y0: 4, length: 2 },
    ];
    assert_eq!(shared_runs(&snakes, false), vec![(0, 3), (5, 7)]);
    assert_eq!(shared_runs(&snakes, true), vec![(0, 2), (3, 6)]);
    assert!(shared_runs(&Vec::new(), true).is_empty());
}

#[test]
fn optimize_partition_moves_a_gap_to_a_better_place() {
    let data = b"a ,,;";
    let mut spans = Vec::new();
    tokenize(data, 0, &mut spans);
    assert_eq!(spans.len(), 4);
    let seq = Tokenization::new(data, &spans);
    let result = optimize_partition(&seq, &vec![(0, 2), (3, 4)]);
    assert_eq!(result.runs, vec![(0, 1), (2, 4)]);
    assert_eq!(result.shared_segments(&seq), vec![(0, 2), (3, 5)]);
}

#[test]
fn optimize_partition_keeps_a_gap_that_cannot_improve() {
    let data = b"a b b c";
    let mut spans = Vec::new();
    tokenize(data, 0, &mut spans);
    let seq = Tokenization::new(data, &spans);
    let result = optimize_partition(&seq, &vec![(0, 2), (3, 4)]);
    assert_eq!(result.runs, vec![(0, 2), (3, 4)]);
    assert_eq!(result.shared_segments(&seq), vec![(0, 4), (6, 7)]);

    let data = b"x y z";
    let mut spans = Vec::new();
    tokenize(data, 0, &mut spans);
    let seq = Tokenization::new(data, &spans);
    let result = optimize_partition(&seq, &vec![(0, 1), (2, 3)]);
    assert_eq!(result.runs, vec![(0, 1), (2, 3)]);
    assert!(optimize_partition(&seq, &Vec::new()).runs.is_empty());
    assert_eq!(optimize_partition(&seq, &vec![(1, 2)]).runs, vec![(1, 2)]);
}

#[test]
fn optimize_partition_leaves_a_token_to_the_run_before() {
    let data = b",,,x";
    let mut spans = Vec::new();
    tokenize(data, 0, &mut spans);
    let seq = Tokenization::new(data, &spans);
    let result = optimize_partition(&seq, &vec![(0, 2), (3, 4)]);
    assert_eq!(result.runs, vec![(0, 2), (3, 4)]);
    let data = b"a;;b";
    let mut spans = Vec::new();
    tokenize(data, 0, &mut spans);
    let seq = Tokenization::new(data, &spans);
    let result = optimize_partition(&seq, &vec![(1, 2), (3, 4)]);
    assert_eq!(result.runs, vec![(1, 2), (3, 4)]);
}

#[test]
fn optimize_partition_twice_changes_nothing() {
    let texts: Vec<&[u8]> = vec![b"a ,,;", b"f((a))((b))", b"x = = = y", b"a,,,,b,,,,c", b"((((("];
    for data in texts {
        let mut spans = Vec::new();
        tokenize(data, 0, &mut spans);
        let seq = Tokenization::new(data, &spans);
        let n = spans.len();
        for first_end in 1..n {
            for second_start in first_end + 1..n {
                let runs = vec![(0, first_end), (second_start, n)];
                let once = optimize_partition(&seq, &runs);
                let twice = optimize_partition(&seq, &once.runs);
                assert_eq!(once.runs, twice.runs);
                assert_eq!(once.shared_segments(&seq), twice.shared_segments(&seq));
            }
        }
    }
}

#[test]
fn both_sides_share_the_same_tokens_after_normalization() {
    let mut state: u64 = 0x853c49e6748fea9b;
    let mut next = move |bound: u64| {
        state ^= state << 13;
        state ^= state >> 7;
        state ^= state << 17;
        state % bound
    };
    let pieces: Vec<&[u8]> = vec![b"a", b"b", b" ", b"(", b")", b",", b",,", b"x y", b";"];
    for _ in 0..200 {
        let mut data: Vec<u8> = Vec::new();
        for _ in 0..next(10) {
            data.extend_from_slice(pieces[next(pieces.len() as u64) as usize]);
        }
        let split = data.len();
        for _ in 0..next(10) {
            data.extend_from_slice(pieces[next(pieces.len() as u64) as usize]);
        }
        let mut removed = Vec::new();
        tokenize(&data[..split], 0, &mut removed);
        let mut added = Vec::new();
        tokenize(&data, split, &mut added);
        let a = Tokenization::new(&data, &removed);
        let b = Tokenization::new(&data, &added);
        let input = DiffInput {
            removed: Tokenization::new(&data, &removed),
            added: Tokenization::new(&data, &added),
        };
        let mut scratch = DiffScratch::new();
        let mut snakes = Vec::new();
        diff(&input, &mut scratch, &mut snakes);
        let runs_a = optimize_partition(&a, &shared_runs(&snakes, false)).runs;
        let runs_b = optimize_partition(&b, &shared_runs(&snakes, true)).runs;
        let tokens = |spans: &Vec<HashedSpan>, runs: &Vec<(usize, usize)>| -> Vec<Vec<u8>> {
            let mut all = Vec::new();
            for &(from, to) in runs {
                assert!(from < to && to <= spans.len());
                for s in &spans[from..to] {
                    all.push(data[s.offset..s.offset + s.length].to_vec());
                }
            }
            all
        };
        let shared_a = tokens(&removed, &runs_a);
        assert_eq!(shared_a, tokens(&added, &runs_b));
        assert_eq!(shared_a.len(), snakes.iter().map(|s| s.length).sum::<usize>());
        for w in runs_a.windows(2) {
            assert!(w[0].1 < w[1].0);
        }
        for w in runs_b.windows(2) {
            assert!(w[0].1 < w[1].0);
        }
    }
}

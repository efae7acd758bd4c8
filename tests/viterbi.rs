use ltp::viterbi::{history_fits_check, viterbi_decode_postprocess};

fn pseudo(seed: u64, count: usize) -> Vec<i64> {
    let mut x = seed;
    (0..count)
        .map(|_| {
            x = x.wrapping_mul(6364136223846793005).wrapping_add(1442695040888963407);
            ((x >> 33) % 1000) as i64
        })
        .collect()
}

struct Crf {
    emit: Vec<Vec<i64>>,
    trans: Vec<Vec<i64>>,
}

fn path_score(crf: &Crf, path: &[i64]) -> i64 {
    let mut s = crf.emit[0][path[0] as usize];
    for t in 1..path.len() {
        s += crf.trans[path[t - 1] as usize][path[t] as usize] + crf.emit[t][path[t] as usize];
    }
    s
}

fn best_by_search(crf: &Crf, n: usize, labels: usize) -> i64 {
    let mut best = i64::MIN;
    for code in 0..labels.pow(n as u32) {
        let mut c = code;
        let path: Vec<i64> = (0..n)
            .map(|_| {
                let y = (c % labels) as i64;
                c /= labels;
                y
            })
            .collect();
        best = best.max(path_score(crf, &path));
    }
    best
}

/// Forward pass: backpointers per step (`bp[t][y]`, t >= 1) and the best last label.
fn forward(crf: &Crf, n: usize, labels: usize) -> (Vec<Vec<i64>>, i64) {
    let mut score = crf.emit[0].clone();
    let mut bp = vec![vec![0i64; labels]];
    for t in 1..n {
        let mut next = vec![0i64; labels];
        let mut back = vec![0i64; labels];
        for y in 0..labels {
            let (mut arg, mut val) = (0usize, i64::MIN);
            for p in 0..labels {
                let v = score[p] + crf.trans[p][y];
                if v > val {
                    val = v;
                    arg = p;
                }
            }
            next[y] = val + crf.emit[t][y];
            back[y] = arg as i64;
        }
        score = next;
        bp.push(back);
    }
    let last = (0..labels).max_by_key(|&y| (score[y], std::cmp::Reverse(y))).unwrap() as i64;
    (bp, last)
}

#[test]
fn length_one_sequence_returns_its_last_label() {
    let out = viterbi_decode_postprocess(&[], &[2], &[1], 3);
    assert_eq!(out, vec![vec![2]]);
}

#[test]
fn output_lengths_follow_sentence_lengths() {
    let labels = 2;
    let lens = [3usize, 1, 2];
    let max = 3;
    let total = 6;
    let history = vec![1i64; (max - 1) * max * labels + total * labels];
    let last = vec![0i64; total];
    let out = viterbi_decode_postprocess(&history, &last, &lens, labels);
    let got: Vec<usize> = out.iter().map(|p| p.len()).collect();
    assert_eq!(got, vec![3, 3, 3, 1, 2, 2]);
}

#[test]
fn padding_shifts_the_history_steps() {
    // one sentence of length 2 in a batch padded to 3: its steps start at 1; a step's row
    // holds every sequence of the batch (5 of them)
    let labels = 3;
    let lens = [3usize, 2];
    let total = 5;
    let stride = total * labels;
    let mut history = vec![0i64; 2 * stride];
    let seq = 3;
    history[1 * stride + seq * labels + 2] = 1;
    let last = vec![0, 0, 0, 2, 0];
    let out = viterbi_decode_postprocess(&history, &last, &lens, labels);
    assert_eq!(out[3], vec![1, 2]);
}

#[test]
fn history_rows_span_all_sequences() {
    // lengths [3, 1], 2 labels: 4 sequences, so a step's row is 8 entries wide
    let lens = [3usize, 1];
    let mut history = vec![0i64; 14];
    history[8] = 1;
    history[1] = 0;
    let last = vec![0, 1, 1, 1];
    assert!(history_fits_check(&history, &last, &lens, 2));
    assert!(!history_fits_check(&history[..13], &last, &lens, 2));
    let out = viterbi_decode_postprocess(&history, &last, &lens, 2);
    assert_eq!(out[0], vec![0, 1, 0]);
    assert_eq!(out[3], vec![1]);
}

#[test]
fn backtrace_matches_a_forward_viterbi_run() {
    for seed in 0..30u64 {
        let labels = 2 + (seed as usize % 5);
        let n = 1 + (seed as usize % 4);
        let mut history = vec![0i64; n * n * labels];
        let mut last = Vec::new();
        let mut crfs = Vec::new();
        for q in 0..n {
            let raw = pseudo(seed * 31 + q as u64, n * labels + labels * labels);
            let emit: Vec<Vec<i64>> = (0..n).map(|t| raw[t * labels..(t + 1) * labels].to_vec()).collect();
            let trans: Vec<Vec<i64>> =
                (0..labels).map(|p| raw[n * labels + p * labels..n * labels + (p + 1) * labels].to_vec()).collect();
            let crf = Crf { emit, trans };
            let (bp, best_last) = forward(&crf, n, labels);
            for p in 0..n.saturating_sub(1) {
                for y in 0..labels {
                    history[p * n * labels + q * labels + y] = bp[p + 1][y];
                }
            }
            last.push(best_last);
            crfs.push(crf);
        }
        assert!(history_fits_check(&history, &last, &[n], labels));
        let out = viterbi_decode_postprocess(&history, &last, &[n], labels);
        assert_eq!(out.len(), n);
        for q in 0..n {
            assert_eq!(out[q].len(), n);
            assert_eq!(*out[q].last().unwrap(), last[q]);
            assert_eq!(path_score(&crfs[q], &out[q]), best_by_search(&crfs[q], n, labels));
        }
    }
}

#[test]
fn history_check_refuses_short_or_bad_input() {
    assert!(!history_fits_check(&[0, 0], &[0, 0], &[2], 2));
    assert!(!history_fits_check(&[0; 8], &[0, 5], &[2], 2));
    assert!(!history_fits_check(&[0; 8], &[0], &[2], 2));
    assert!(history_fits_check(&[0; 8], &[0, 1], &[2], 2));
}

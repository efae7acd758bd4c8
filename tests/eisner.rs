use ltp::eisner::eisner;

fn crossing(h1: usize, d1: usize, h2: usize, d2: usize) -> bool {
    let (a1, b1) = (h1.min(d1), h1.max(d1));
    let (a2, b2) = (h2.min(d2), h2.max(d2));
    (a1 < a2 && a2 < b1 && b1 < b2) || (a2 < a1 && a1 < b2 && b2 < b1)
}

/// Scores for one sentence block: `s[d * m + h]` is the arc from `h` to `d`.
fn block(m: usize, arcs: &[(usize, usize, i64)], fill: i64) -> Vec<i64> {
    let mut s = vec![fill; m * m];
    for &(h, d, v) in arcs {
        s[d * m + h] = v;
    }
    s
}

fn tree_score(scores: &[i64], base: usize, m: usize, heads: &[usize]) -> i64 {
    (1..heads.len()).map(|d| scores[base + d * m + heads[d]]).sum()
}

/// Whether `heads` (position 0 unused) is a tree rooted at 0 in which the root has exactly
/// one dependent and no two arcs cross.
fn is_single_root_projective_tree(heads: &[usize]) -> bool {
    let n = heads.len();
    for d in 1..n {
        let mut seen = 0;
        let mut x = d;
        while x != 0 {
            x = heads[x];
            seen += 1;
            if seen > n {
                return false;
            }
        }
    }
    if (1..n).filter(|&d| heads[d] == 0).count() != 1 {
        return false;
    }
    for d1 in 1..n {
        for d2 in 1..n {
            if crossing(heads[d1], d1, heads[d2], d2) {
                return false;
            }
        }
    }
    true
}

fn best_by_search(scores: &[i64], base: usize, m: usize, n: usize) -> i64 {
    let mut best = i64::MIN;
    let mut heads = vec![0usize; n];
    let total = n.pow((n - 1) as u32);
    for code in 0..total {
        let mut c = code;
        for d in 1..n {
            heads[d] = c % n;
            c /= n;
        }
        if (1..n).any(|d| heads[d] == d) || !is_single_root_projective_tree(&heads) {
            continue;
        }
        best = best.max(tree_score(scores, base, m, &heads));
    }
    best
}

fn pseudo_scores(len: usize, seed: u64) -> Vec<i64> {
    let mut x = seed;
    (0..len)
        .map(|_| {
            x = x.wrapping_mul(6364136223846793005).wrapping_add(1442695040888963407);
            ((x >> 33) % 41) as i64 - 20
        })
        .collect()
}

#[test]
fn obvious_chain_is_found() {
    let s = block(3, &[(0, 1, 10), (1, 2, 10)], 0);
    assert_eq!(eisner(&s, &[3], true), vec![vec![0, 1]]);
    assert_eq!(eisner(&s, &[3], false), vec![vec![1, 0, 1]]);
}

#[test]
fn single_word_attaches_to_root() {
    let s = block(2, &[], -5);
    assert_eq!(eisner(&s, &[2], true), vec![vec![0]]);
}

#[test]
fn root_takes_exactly_one_dependent() {
    // both words prefer the root, but only one may have it
    let s = block(3, &[(0, 1, 50), (0, 2, 40), (1, 2, 1), (2, 1, 1)], 0);
    assert_eq!(eisner(&s, &[3], true), vec![vec![0, 1]]);
}

#[test]
fn ties_go_to_the_first_split() {
    let s = vec![0i64; 16];
    let first = eisner(&s, &[4], true);
    let second = eisner(&s, &[4], true);
    assert_eq!(first, second);
    assert!(is_single_root_projective_tree(&[vec![0usize], first[0].clone()].concat()));
}

#[test]
fn trees_are_projective_and_optimal() {
    for seed in 0..40u64 {
        let n = 2 + (seed as usize % 4);
        let s = pseudo_scores(n * n, seed);
        let heads = eisner(&s, &[n], false);
        let h = &heads[0];
        assert_eq!(h.len(), n);
        assert_eq!(h[0], 1);
        for d in 1..n {
            assert!(h[d] < n && h[d] != d);
        }
        assert!(is_single_root_projective_tree(h));
        assert_eq!(tree_score(&s, 0, n, h), best_by_search(&s, 0, n, n));
    }
}

#[test]
fn padded_batch_decodes_each_sentence_alone() {
    let lens = [5usize, 3, 4];
    let m = 5;
    let mut batch_scores = Vec::new();
    let mut blocks = Vec::new();
    for (b, &n) in lens.iter().enumerate() {
        let own = pseudo_scores(n * n, 100 + b as u64);
        let mut padded = vec![-7i64; m * m];
        for d in 0..n {
            for h in 0..n {
                padded[d * m + h] = own[d * n + h];
            }
        }
        batch_scores.extend_from_slice(&padded);
        blocks.push(own);
    }
    let together = eisner(&batch_scores, &lens, true);
    assert_eq!(together.len(), 3);
    for (b, &n) in lens.iter().enumerate() {
        let alone = eisner(&blocks[b], &[n], true);
        assert_eq!(together[b], alone[0]);
        assert_eq!(together[b].len(), n - 1);
    }
}

#[test]
fn empty_batch_gives_nothing() {
    assert_eq!(eisner(&[], &[], true), Vec::<Vec<usize>>::new());
}

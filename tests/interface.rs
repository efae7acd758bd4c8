use ltp::interface::{decode_batch, decode_dep, decode_seg, decode_tags, LTPError, LTPResult, Tensor, Vocab};

fn strings(v: &[&str]) -> Vec<String> {
    v.iter().map(|s| s.to_string()).collect()
}

fn full_vocab() -> Vocab {
    Vocab {
        seg: Some(strings(&["B", "I"])),
        pos: Some(strings(&["r", "v", "nh", "n", "wp"])),
        ner: Some(strings(&["O", "S-Nh"])),
        srl: Some(strings(&["O", "A0", "A1"])),
        dep: Some(strings(&["HED", "SBV", "VOB", "WP"])),
        sdp: Some(strings(&["Root", "Agt", "Pat"])),
    }
}

/// What the scoring engine would say about one sentence, before padding.
struct Sentence {
    text: String,
    seg: Vec<i64>,
    pos: Vec<i64>,
    ner: Vec<i64>,
    dep_scores: Vec<i64>,
    dep_labels: Vec<i64>,
    sdp_scores: Vec<i64>,
    sdp_labels: Vec<i64>,
}

fn words_of(seg: &[i64]) -> usize {
    seg.iter().filter(|&&x| x == 0).count()
}

fn square(n: usize, seed: u64, modulo: i64, shift: i64) -> Vec<i64> {
    let mut x = seed;
    (0..n * n)
        .map(|_| {
            x = x.wrapping_mul(6364136223846793005).wrapping_add(1442695040888963407);
            ((x >> 33) as i64 % modulo) - shift
        })
        .collect()
}

fn sentence(text: &str, seg: &[i64], pos: &[i64], ner: &[i64], seed: u64) -> Sentence {
    let w = words_of(seg);
    let n = w + 1;
    Sentence {
        text: text.to_string(),
        seg: seg.to_vec(),
        pos: pos.to_vec(),
        ner: ner.to_vec(),
        dep_scores: square(n, seed, 200, 100),
        dep_labels: square(n, seed + 1, 4, 0),
        sdp_scores: square(n, seed + 2, 200, 150),
        sdp_labels: square(n, seed + 3, 3, 0),
    }
}

fn pad_rows(rows: &[&Vec<i64>], width: usize) -> Tensor {
    let mut data = Vec::new();
    for r in rows {
        let mut row = (*r).clone();
        row.resize(width, 0);
        data.extend(row);
    }
    Tensor { data, shape: vec![rows.len(), width] }
}

fn pad_blocks(blocks: &[(&Vec<i64>, usize)], m: usize, fill: i64) -> Tensor {
    let mut data = Vec::new();
    for &(b, n) in blocks {
        let mut padded = vec![fill; m * m];
        for d in 0..n {
            for h in 0..n {
                padded[d * m + h] = b[d * n + h];
            }
        }
        data.extend(padded);
    }
    Tensor { data, shape: vec![blocks.len(), m, m] }
}

struct Batch {
    texts: Vec<String>,
    offsets: Vec<Vec<(usize, usize)>>,
    lengths: Vec<usize>,
    outputs: Vec<Tensor>,
}

fn batch(sentences: &[&Sentence]) -> Batch {
    let texts: Vec<String> = sentences.iter().map(|s| s.text.clone()).collect();
    let offsets: Vec<Vec<(usize, usize)>> = sentences
        .iter()
        .map(|s| {
            let chars = s.text.chars().count();
            let mut o = vec![(0, 0)];
            o.extend((0..chars).map(|k| (k, k + 1)));
            o.push((0, 0));
            o
        })
        .collect();
    let lengths: Vec<usize> = sentences.iter().map(|s| s.seg.len()).collect();
    let words: Vec<usize> = sentences.iter().map(|s| words_of(&s.seg)).collect();
    let max_tokens = *lengths.iter().max().unwrap();
    let max_words = *words.iter().max().unwrap();
    let m = max_words + 1;
    let total: usize = words.iter().sum();
    let history = vec![1i64; max_words * total * 3];
    let last = vec![2i64; total];
    let outputs = vec![
        pad_rows(&sentences.iter().map(|s| &s.seg).collect::<Vec<_>>(), max_tokens),
        pad_rows(&sentences.iter().map(|s| &s.pos).collect::<Vec<_>>(), max_words),
        pad_rows(&sentences.iter().map(|s| &s.ner).collect::<Vec<_>>(), max_words),
        Tensor { shape: vec![history.len()], data: history },
        Tensor { shape: vec![last.len()], data: last },
        pad_blocks(&sentences.iter().zip(&words).map(|(s, w)| (&s.dep_scores, w + 1)).collect::<Vec<_>>(), m, -1000),
        pad_blocks(&sentences.iter().zip(&words).map(|(s, w)| (&s.dep_labels, w + 1)).collect::<Vec<_>>(), m, 0),
        pad_blocks(&sentences.iter().zip(&words).map(|(s, w)| (&s.sdp_scores, w + 1)).collect::<Vec<_>>(), m, -1000),
        pad_blocks(&sentences.iter().zip(&words).map(|(s, w)| (&s.sdp_labels, w + 1)).collect::<Vec<_>>(), m, 0),
    ];
    Batch { texts, offsets, lengths, outputs }
}

fn run(vocab: &Vocab, b: &Batch) -> Result<Vec<LTPResult>, LTPError> {
    decode_batch(vocab, &b.texts, &b.offsets, &b.lengths, &b.outputs)
}

fn tom() -> Sentence {
    // 他 叫 汤姆 去 拿 外衣 。
    sentence("他叫汤姆去拿外衣。", &[0, 0, 0, 1, 0, 0, 0, 1, 0], &[0, 1, 2, 1, 1, 3, 4], &[0, 0, 1, 0, 0, 0, 0], 7)
}

fn seer() -> Sentence {
    // 我 爱 赛尔 !
    sentence("我爱赛尔!", &[0, 0, 0, 1, 0], &[0, 1, 2, 4], &[0, 0, 1, 0], 11)
}

#[test]
fn every_task_fills_every_word() {
    let s = tom();
    let r = run(&full_vocab(), &batch(&[&s])).unwrap();
    assert_eq!(r.len(), 1);
    let one = &r[0];
    assert_eq!(one.seg.as_ref().unwrap(), &strings(&["他", "叫", "汤姆", "去", "拿", "外衣", "。"]));
    assert_eq!(one.pos.as_ref().unwrap(), &strings(&["r", "v", "nh", "v", "v", "n", "wp"]));
    assert_eq!(one.ner.as_ref().unwrap(), &strings(&["O", "O", "S-Nh", "O", "O", "O", "O"]));
    let srl = one.srl.as_ref().unwrap();
    assert_eq!(srl.len(), 7);
    for roles in srl {
        assert_eq!(roles.len(), 7);
        assert_eq!(roles.last().unwrap(), "A1");
    }
    let dep = one.dep.as_ref().unwrap();
    assert_eq!(dep.len(), 7);
    assert_eq!(dep.iter().filter(|d| d.arc == 0).count(), 1);
    for d in dep {
        assert!(d.arc <= 7);
    }
    let sdp = one.sdp.as_ref().unwrap();
    assert!(sdp.len() >= 7);
    for e in sdp {
        assert!(e.src >= 1 && e.src <= 7 && e.tgt <= 7);
    }
}

#[test]
fn decoding_is_deterministic() {
    let s = tom();
    let b = batch(&[&s]);
    assert_eq!(run(&full_vocab(), &b).unwrap(), run(&full_vocab(), &b).unwrap());
}

#[test]
fn batch_of_one_matches_its_place_in_a_batch() {
    let a = tom();
    let b = seer();
    let both = run(&full_vocab(), &batch(&[&a, &b])).unwrap();
    let only_a = run(&full_vocab(), &batch(&[&a])).unwrap();
    let only_b = run(&full_vocab(), &batch(&[&b])).unwrap();
    assert_eq!(both.len(), 2);
    assert_eq!(both[0], only_a[0]);
    assert_eq!(both[1], only_b[0]);
}

#[test]
fn order_follows_input_order() {
    let a = tom();
    let b = seer();
    let ab = run(&full_vocab(), &batch(&[&a, &b])).unwrap();
    let ba = run(&full_vocab(), &batch(&[&b, &a])).unwrap();
    assert_eq!(ab[0], ba[1]);
    assert_eq!(ab[1], ba[0]);
    assert_eq!(ab[1].seg.as_ref().unwrap(), &strings(&["我", "爱", "赛尔", "!"]));
}

#[test]
fn disabled_tasks_are_absent() {
    let s = tom();
    let full = batch(&[&s]);
    let vocab = Vocab { pos: None, srl: None, sdp: None, ..full_vocab() };
    // pos, the srl pair and the sdp pair are not produced
    let outputs = vec![
        full.outputs[0].clone(),
        full.outputs[2].clone(),
        full.outputs[5].clone(),
        full.outputs[6].clone(),
    ];
    let b = Batch { outputs, ..full };
    let r = run(&vocab, &b).unwrap();
    assert!(r[0].pos.is_none() && r[0].srl.is_none() && r[0].sdp.is_none());
    assert_eq!(r[0].ner.as_ref().unwrap().len(), 7);
    assert_eq!(r[0].dep.as_ref().unwrap().len(), 7);
}

#[test]
fn empty_batch_gives_no_results() {
    let vocab = Vocab { pos: None, ner: None, srl: None, dep: None, sdp: None, ..full_vocab() };
    let outputs = vec![Tensor { data: vec![], shape: vec![0, 0] }];
    let r = decode_batch(&vocab, &vec![], &vec![], &vec![], &outputs).unwrap();
    assert!(r.is_empty());
}

#[test]
fn missing_segmentation_vocabulary_is_a_serde_error() {
    let s = tom();
    let vocab = Vocab { seg: None, ..full_vocab() };
    assert!(matches!(run(&vocab, &batch(&[&s])), Err(LTPError::SerdeError(_))));
}

#[test]
fn wrong_number_of_tensors_is_an_extract_error() {
    let s = tom();
    let mut b = batch(&[&s]);
    b.outputs.pop();
    assert!(matches!(run(&full_vocab(), &b), Err(LTPError::TensorExtractError(_))));
}

#[test]
fn label_outside_vocabulary_is_a_shape_error() {
    let s = tom();
    let mut b = batch(&[&s]);
    b.outputs[1].data[0] = 99;
    assert!(matches!(run(&full_vocab(), &b), Err(LTPError::ShapeError(_))));
}

#[test]
fn seg_maps_chunks_through_offsets() {
    let vocab = strings(&["B", "I"]);
    let tags = Tensor { data: vec![0, 1, 0, 0], shape: vec![1, 4] };
    let offsets = vec![vec![(0, 0), (0, 1), (1, 2), (2, 3), (3, 4), (0, 0)]];
    let texts = vec!["abcd".to_string()];
    let words = decode_seg(&vocab, &tags, &vec![4], &offsets, &texts).unwrap();
    assert_eq!(words, vec![strings(&["ab", "c", "d"])]);
    let short = vec![vec![(0, 0), (0, 1)]];
    assert!(matches!(decode_seg(&vocab, &tags, &vec![4], &short, &texts), Err(LTPError::ShapeError(_))));
}

#[test]
fn tags_are_cut_to_word_counts() {
    let vocab = strings(&["x", "y"]);
    let t = Tensor { data: vec![0, 1, 1, 1, 0, 0], shape: vec![2, 3] };
    let tags = decode_tags(&vocab, &t, &vec![3, 1]).unwrap();
    assert_eq!(tags, vec![strings(&["x", "y", "y"]), strings(&["y"])]);
    assert!(decode_tags(&vocab, &t, &vec![4, 1]).is_err());
}

#[test]
fn dep_reads_the_label_of_the_chosen_head() {
    let vocab = strings(&["HED", "ATT"]);
    // root -> 2, 2 -> 1
    let mut scores = vec![0i64; 9];
    scores[2 * 3 + 0] = 10;
    scores[1 * 3 + 2] = 10;
    let mut labels = vec![0i64; 9];
    labels[1 * 3 + 2] = 1;
    let s = Tensor { data: scores, shape: vec![1, 3, 3] };
    let l = Tensor { data: labels, shape: vec![1, 3, 3] };
    let dep = decode_dep(&vocab, &s, &l, &vec![2]).unwrap();
    assert_eq!(dep[0].len(), 2);
    assert_eq!((dep[0][0].arc, dep[0][0].rel.as_str()), (2, "ATT"));
    assert_eq!((dep[0][1].arc, dep[0][1].rel.as_str()), (0, "HED"));
}

#[test]
fn sdp_keeps_positive_scores_and_tree_arcs() {
    let s = tom();
    let b = batch(&[&s]);
    let r = run(&full_vocab(), &b).unwrap();
    let dep_like = &b.outputs[7];
    let sdp = r[0].sdp.as_ref().unwrap();
    let m = dep_like.shape[1];
    for e in sdp {
        let score = dep_like.data[e.src * m + e.tgt];
        assert!(score > 0 || sdp.iter().filter(|x| x.src == e.src).count() >= 1);
    }
    for src in 1..=7 {
        for tgt in 0..=7 {
            if dep_like.data[src * m + tgt] > 0 {
                assert!(sdp.iter().any(|e| e.src == src && e.tgt == tgt));
            }
        }
    }
}

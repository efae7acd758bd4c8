use ltp::interface::{output_is_score, LTPError, Vocab};
use ltp::packing::pack_batch;
use ltp::tokenize::{token_id, LTPTokenizer};

fn toy_vocab() -> Vec<String> {
    ["[PAD]", "[UNK]", "[CLS]", "[SEP]", "我", "爱", "赛", "尔", "!"].iter().map(|t| t.to_string()).collect()
}

fn toy_tokenizer() -> LTPTokenizer {
    LTPTokenizer::new(toy_vocab()).unwrap()
}

#[test]
fn tokenize_gives_one_row_per_sentence() {
    let tokenizer = toy_tokenizer();
    let sentences = vec!["我爱赛尔!".to_string(), "我爱".to_string()];
    let batch = tokenizer.tokenize(&sentences).unwrap();
    assert_eq!(batch.ids.len(), 2);
    assert_eq!(batch.ids[0], vec![2, 4, 5, 6, 7, 8, 3]);
    assert_eq!(batch.ids[1], vec![2, 4, 5, 3, 0, 0, 0]);
    assert_eq!(batch.attention_mask[1], vec![1, 1, 1, 1, 0, 0, 0]);
    let packed = pack_batch(&batch.ids, &batch.type_ids, &batch.attention_mask).unwrap();
    assert_eq!(packed.lengths, vec![5, 2]);
    assert_eq!(packed.input_ids.shape, vec![2, 7]);
}

#[test]
fn score_outputs_follow_the_enabled_tasks() {
    let some = Some(vec!["x".to_string()]);
    let all = Vocab {
        seg: some.clone(),
        pos: some.clone(),
        ner: some.clone(),
        srl: some.clone(),
        dep: some.clone(),
        sdp: some.clone(),
    };
    let scores: Vec<usize> = (0..9).filter(|&k| output_is_score(&all, k)).collect();
    assert_eq!(scores, vec![5, 7]);
    let no_srl = Vocab { srl: None, pos: None, ..all };
    let scores: Vec<usize> = (0..9).filter(|&k| output_is_score(&no_srl, k)).collect();
    assert_eq!(scores, vec![2, 4]);
}

#[test]
fn special_tokens_are_found_by_their_last_position() {
    let mut vocab = toy_vocab();
    assert_eq!(token_id(&vocab, "[CLS]"), Some(2));
    vocab.push("[CLS]".to_string());
    assert_eq!(token_id(&vocab, "[CLS]"), Some(9));
    assert_eq!(token_id(&vocab, "[MASK]"), None);
}

#[test]
fn vocabulary_without_markers_is_refused() {
    let vocab: Vec<String> = ["[PAD]", "[UNK]", "我"].iter().map(|t| t.to_string()).collect();
    assert!(matches!(LTPTokenizer::new(vocab), Err(LTPError::TokenizeError(_))));
}

#[test]
fn long_sentences_are_not_truncated() {
    let tokenizer = toy_tokenizer();
    let long: String = "我爱".repeat(600);
    let batch = tokenizer.tokenize(&vec![long, "我".to_string()]).unwrap();
    assert_eq!(batch.ids[0].len(), 1202);
    assert_eq!(batch.ids[1].len(), 1202);
    assert_eq!(batch.offsets[1].len(), 1202);
}

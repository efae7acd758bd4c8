use vstd::prelude::*;

use tokenizers::models::wordpiece::WordPiece;
use tokenizers::normalizers::bert::BertNormalizer;
use tokenizers::pre_tokenizers::bert::BertPreTokenizer;
use tokenizers::processors::bert::BertProcessing;
use tokenizers::tokenizer::{EncodeInput, PaddingDirection, PaddingParams, PaddingStrategy, Tokenizer};

use crate::entities::same_str;
use crate::interface::LTPError;

verus! {

#[verifier::external_type_specification]
#[verifier::external_body]
pub struct ExTokenizer(Tokenizer);

/// The BERT-style word-piece tokenizer of the pipeline: normalised and split as BERT does,
/// framed by `[CLS]` and `[SEP]`, each batch padded on the right to its longest sentence,
/// and never truncated. Only `LTPTokenizer::new` builds one.
pub struct LTPTokenizer {
    tokenizer: Tokenizer,
}

/// The tokenizer's output for a batch, one row per sentence in sentence order: token ids,
/// type ids, attention mask and each token's character span.
#[derive(Debug, Clone, PartialEq)]
pub struct TokenBatch {
    pub ids: Vec<Vec<u32>>,
    pub type_ids: Vec<Vec<u32>>,
    pub attention_mask: Vec<Vec<u32>>,
    pub offsets: Vec<Vec<(usize, usize)>>,
}

/// `b` has one row per sentence, each row's four lists are equally long, and all rows are
/// as long as the first.
pub open spec fn rows_for(b: TokenBatch, n: int) -> bool {
    &&& b.ids@.len() == n
    &&& b.type_ids@.len() == n
    &&& b.attention_mask@.len() == n
    &&& b.offsets@.len() == n
    &&& forall|k: int|
        0 <= k < n ==> #[trigger] b.ids@[k]@.len() == b.type_ids@[k]@.len() && b.ids@[k]@.len()
            == b.attention_mask@[k]@.len() && b.ids@[k]@.len() == b.offsets@[k]@.len() && b.ids@[k]@.len()
            == b.ids@[0]@.len()
}

/// Relies on `WordPiece::builder().vocab(..).build()` and `Tokenizer::new`: a word-piece model
/// whose token `k` is `vocab[k]` (a later duplicate wins), or the builder's error.
#[verifier::external_body]
fn wordpiece_tokenizer(vocab: &Vec<String>) -> (r: Result<Tokenizer, String>)
    requires
        vocab@.len() <= u32::MAX,
{
    let map = vocab.iter().enumerate().map(|(k, t)| (t.clone(), k as u32)).collect();
    match WordPiece::builder().vocab(map).build() {
        Ok(model) => Ok(Tokenizer::new(Box::new(model))),
        Err(e) => Err(e.to_string()),
    }
}

/// Relies on `Tokenizer::with_normalizer`: sets BERT's default normaliser.
#[verifier::external_body]
fn use_bert_normalizer(t: &mut Tokenizer) {
    t.with_normalizer(Box::new(BertNormalizer::default()));
}

/// Relies on `Tokenizer::with_pre_tokenizer`: sets BERT's pre-tokenizer.
#[verifier::external_body]
fn use_bert_pre_tokenizer(t: &mut Tokenizer) {
    t.with_pre_tokenizer(Box::new(BertPreTokenizer));
}

/// Relies on `Tokenizer::with_post_processor`: frames each sentence by `[CLS]` and `[SEP]`
/// with the given ids.
#[verifier::external_body]
fn use_bert_post_processor(t: &mut Tokenizer, cls: u32, sep: u32) {
    t.with_post_processor(Box::new(BertProcessing::new(("[SEP]".to_string(), sep), ("[CLS]".to_string(), cls))));
}

/// Relies on `Tokenizer::with_padding`: pads each batch on the right to its longest sentence
/// with `[PAD]` of the given id.
#[verifier::external_body]
fn use_batch_padding(t: &mut Tokenizer, pad: u32) {
    let strategy = PaddingStrategy::BatchLongest;
    let direction = PaddingDirection::Right;
    t.with_padding(Some(PaddingParams { strategy, direction, pad_id: pad, pad_type_id: 0, pad_token: "[PAD]".to_string() }));
}

/// Relies on `Tokenizer::encode_batch` of a tokenizer built by `LTPTokenizer::new` (no
/// truncation, batch-longest padding): one encoding per input, in input order, whose ids,
/// type ids, mask and offsets are equally long, all padded to the longest.
#[verifier::external_body]
fn encode_batch(tokenizer: &LTPTokenizer, sentences: &Vec<String>) -> (r: Result<TokenBatch, String>)
    ensures
        r matches Ok(b) ==> rows_for(b, sentences@.len() as int),
{
    let inputs = sentences.iter().map(|s| EncodeInput::Single(s.clone())).collect();
    match tokenizer.tokenizer.encode_batch(inputs, true) {
        Ok(encs) => Ok(TokenBatch {
            ids: encs.iter().map(|e| e.get_ids().to_vec()).collect(),
            type_ids: encs.iter().map(|e| e.get_type_ids().to_vec()).collect(),
            attention_mask: encs.iter().map(|e| e.get_attention_mask().to_vec()).collect(),
            offsets: encs.iter().map(|e| e.get_offsets().to_vec()).collect(),
        }),
        Err(e) => Err(e.to_string()),
    }
}

/// The id of `token` in the vocabulary: the last position that holds it, as the word-piece
/// model keeps the last duplicate.
pub fn token_id(vocab: &Vec<String>, token: &str) -> (r: Option<usize>)
    ensures
        r matches Some(k) ==> k < vocab@.len() && vocab@[k as int]@ == token@ && forall|q: int|
            k < q < vocab@.len() ==> (#[trigger] vocab@[q])@ != token@,
        r is None ==> forall|q: int| 0 <= q < vocab@.len() ==> (#[trigger] vocab@[q])@ != token@,
{
    let mut k: usize = vocab.len();
    while k > 0
        invariant
            k <= vocab@.len(),
            forall|q: int| k <= q < vocab@.len() ==> (#[trigger] vocab@[q])@ != token@,
        decreases k,
    {
        if same_str(vocab[k - 1].as_str(), token) {
            return Some(k - 1);
        }
        k = k - 1;
    }
    None
}

fn missing() -> (r: LTPError)
    ensures
        r is TokenizeError,
{
    LTPError::TokenizeError(String::from_str("vocabulary lacks a special token"))
}

impl LTPTokenizer {
    /// Builds the tokenizer from its vocabulary, token `k` being `vocab[k]`. Fails with
    /// `TokenizeError` when the vocabulary is too large for 32-bit ids, lacks `[CLS]`, `[SEP]`
    /// or `[PAD]`, or the word-piece model refuses it.
    pub fn new(vocab: Vec<String>) -> (r: Result<LTPTokenizer, LTPError>)
        ensures
            r matches Err(e) ==> e is TokenizeError,
            vocab@.len() > u32::MAX ==> r is Err,
    {
        if vocab.len() > u32::MAX as usize {
            return Err(LTPError::TokenizeError(String::from_str("vocabulary too large")));
        }
        let cls = match token_id(&vocab, "[CLS]") {
            Some(k) => k as u32,
            None => {
                return Err(missing());
            },
        };
        let sep = match token_id(&vocab, "[SEP]") {
            Some(k) => k as u32,
            None => {
                return Err(missing());
            },
        };
        let pad = match token_id(&vocab, "[PAD]") {
            Some(k) => k as u32,
            None => {
                return Err(missing());
            },
        };
        let mut tokenizer = match wordpiece_tokenizer(&vocab) {
            Ok(t) => t,
            Err(message) => {
                return Err(LTPError::TokenizeError(message));
            },
        };
        use_bert_normalizer(&mut tokenizer);
        use_bert_pre_tokenizer(&mut tokenizer);
        use_bert_post_processor(&mut tokenizer, cls, sep);
        use_batch_padding(&mut tokenizer, pad);
        Ok(LTPTokenizer { tokenizer })
    }

    /// Tokenizes a batch of sentences together; a tokenizer failure comes back as
    /// `TokenizeError` with its message.
    pub fn tokenize(&self, sentences: &Vec<String>) -> (r: Result<TokenBatch, LTPError>)
        ensures
            r matches Ok(b) ==> rows_for(b, sentences@.len() as int),
            r matches Err(e) ==> e is TokenizeError,
    {
        match encode_batch(self, sentences) {
            Ok(b) => Ok(b),
            Err(message) => Err(LTPError::TokenizeError(message)),
        }
    }
}

} // verus!

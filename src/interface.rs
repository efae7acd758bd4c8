use vstd::prelude::*;

use crate::batch::{first_seq, lemma_max_bounds, lemma_prefix_total, max_len, total_len};
use crate::eisner::{arc_score, eisner, eisner_arcs, eisner_heads, lemma_eisner_padding, lemma_eisner_projective_tree, same_block, MAX_SENTENCE, SCORE_LIMIT};
use crate::entities::{entities, get_entities, labels_view, ChunkView};
use crate::viterbi::{history_fits, history_fits_check, history_index, lemma_path_labels, lemma_path_padding, path, viterbi_decode_postprocess};

verus! {

/// One dependency arc: the head of a word (0 is the root) and the relation's label.
#[derive(Debug, Clone, PartialEq)]
pub struct DEP {
    pub arc: usize,
    pub rel: String,
}

/// One semantic dependency arc between two positions, with its relation's label.
#[derive(Debug, Clone, PartialEq)]
pub struct SDP {
    pub src: usize,
    pub tgt: usize,
    pub rel: String,
}

/// The analysis of one sentence; a field is `None` when its task is not loaded.
#[derive(Debug, Clone, PartialEq)]
pub struct LTPResult {
    pub seg: Option<Vec<String>>,
    pub pos: Option<Vec<String>>,
    pub ner: Option<Vec<String>>,
    pub dep: Option<Vec<DEP>>,
    pub sdp: Option<Vec<SDP>>,
    pub srl: Option<Vec<Vec<String>>>,
}

/// The label list of each task, where a label's position is its id; an absent list
/// disables the task.
#[derive(Debug, Clone, PartialEq)]
pub struct Vocab {
    pub seg: Option<Vec<String>>,
    pub pos: Option<Vec<String>>,
    pub ner: Option<Vec<String>>,
    pub srl: Option<Vec<String>>,
    pub dep: Option<Vec<String>>,
    pub sdp: Option<Vec<String>>,
}

/// Why a batch could not be analysed. Each kind carries the cause in words.
#[derive(Debug, Clone, PartialEq)]
pub enum LTPError {
    IOError(String),
    SerdeError(String),
    OrtError(String),
    TensorExtractError(String),
    ShapeError(String),
    TokenizeError(String),
}

/// A dense integer tensor in row-major order. Label tensors hold label ids; score tensors
/// hold fixed-point scores.
#[derive(Debug, Clone, PartialEq)]
pub struct Tensor {
    pub data: Vec<i64>,
    pub shape: Vec<usize>,
}

fn shape_error() -> (r: LTPError)
    ensures
        r is ShapeError,
{
    LTPError::ShapeError(String::from_str("tensor shape does not fit the batch"))
}

pub open spec fn strings_view(v: Seq<String>) -> Seq<Seq<char>> {
    v.map_values(|x: String| x@)
}

/// A tensor of rank 2 whose data fills its shape.
pub open spec fn rank2(t: Tensor) -> bool {
    &&& t.shape@.len() == 2
    &&& t.data@.len() == t.shape@[0] * t.shape@[1]
}

pub open spec fn el2(t: Tensor, r: int, c: int) -> i64 {
    t.data@[r * t.shape@[1] + c]
}

/// A tensor of rank 3 whose data fills its shape.
pub open spec fn rank3(t: Tensor) -> bool {
    &&& t.shape@.len() == 3
    &&& t.shape@[1] * t.shape@[2] <= usize::MAX
    &&& t.data@.len() == t.shape@[0] * (t.shape@[1] * t.shape@[2])
}

pub open spec fn el3(t: Tensor, b: int, i: int, j: int) -> i64 {
    t.data@[b * (t.shape@[1] * t.shape@[2]) + i * t.shape@[2] + j]
}

fn is_rank2(t: &Tensor) -> (r: bool)
    ensures
        r == rank2(*t),
{
    let data_len = t.data.len();
    if t.shape.len() != 2 {
        return false;
    }
    match t.shape[0].checked_mul(t.shape[1]) {
        Some(size) => size == data_len,
        None => false,
    }
}

fn is_rank3(t: &Tensor) -> (r: bool)
    ensures
        r == rank3(*t),
{
    let data_len = t.data.len();
    if t.shape.len() != 3 {
        return false;
    }
    match t.shape[1].checked_mul(t.shape[2]) {
        Some(block) => match t.shape[0].checked_mul(block) {
            Some(size) => size == data_len,
            None => false,
        },
        None => false,
    }
}

fn get2(t: &Tensor, r: usize, c: usize) -> (x: i64)
    requires
        rank2(*t),
        r < t.shape@[0],
        c < t.shape@[1],
    ensures
        x == el2(*t, r as int, c as int),
{
    let w = t.shape[1];
    let rows = t.shape[0];
    let data_len = t.data.len();
    assert(r * w + c < rows * w) by (nonlinear_arith)
        requires r < rows, c < w;
    t.data[r * w + c]
}

fn get3(t: &Tensor, b: usize, i: usize, j: usize) -> (x: i64)
    requires
        rank3(*t),
        b < t.shape@[0],
        i < t.shape@[1],
        j < t.shape@[2],
    ensures
        x == el3(*t, b as int, i as int, j as int),
{
    let n0 = t.shape[0];
    let n1 = t.shape[1];
    let n2 = t.shape[2];
    let data_len = t.data.len();
    assert(n1 * n2 <= n0 * (n1 * n2) || n0 == 0) by (nonlinear_arith);
    assert(i * n2 + j < n1 * n2) by (nonlinear_arith)
        requires i < n1, j < n2;
    assert(b * (n1 * n2) + (n1 * n2) <= n0 * (n1 * n2)) by (nonlinear_arith)
        requires b < n0;
    t.data[b * (n1 * n2) + i * n2 + j]
}

/// The first `len` labels of row `row`, each id read through the vocabulary.
pub open spec fn row_labels(vocab: Seq<String>, t: Tensor, row: int, len: int) -> Seq<Seq<char>> {
    Seq::new(len as nat, |c: int| vocab[el2(t, row, c) as int]@)
}

/// The first `len` ids of row `row` are ids of the vocabulary.
pub open spec fn row_fits(vocab_len: int, t: Tensor, row: int, len: int) -> bool {
    &&& len <= t.shape@[1]
    &&& forall|c: int| 0 <= c < len ==> 0 <= #[trigger] el2(t, row, c) < vocab_len
}

/// The characters that a chunk of tokens covers, through the tokens' character offsets
/// (token 0 is the sentence-start marker).
pub open spec fn word_of(text: Seq<char>, offs: Seq<(usize, usize)>, c: ChunkView) -> Seq<char> {
    text.subrange(offs[c.1 + 1].0 as int, offs[c.2 + 1].1 as int)
}

pub open spec fn span_fits(text: Seq<char>, offs: Seq<(usize, usize)>, c: ChunkView) -> bool {
    &&& 0 <= c.1
    &&& c.1 + 1 < offs.len()
    &&& c.2 + 1 < offs.len()
    &&& offs[c.1 + 1].0 <= offs[c.2 + 1].1 <= text.len()
}

/// The word chunks of sentence `row`: segmentation labels of its `len` tokens, chunked.
pub open spec fn seg_chunks(vocab: Seq<String>, t: Tensor, row: int, len: int) -> Seq<ChunkView> {
    entities(row_labels(vocab, t, row, len))
}

pub open spec fn seg_sentence_ok(vocab: Seq<String>, t: Tensor, row: int, len: int, offs: Seq<(usize, usize)>, text: Seq<char>) -> bool {
    &&& row_fits(vocab.len() as int, t, row, len)
    &&& forall|k: int| 0 <= k < seg_chunks(vocab, t, row, len).len() ==> span_fits(text, offs, #[trigger] seg_chunks(vocab, t, row, len)[k])
}

pub open spec fn seg_sentence_words(vocab: Seq<String>, t: Tensor, row: int, len: int, offs: Seq<(usize, usize)>, text: Seq<char>) -> Seq<Seq<char>> {
    seg_chunks(vocab, t, row, len).map_values(|c: ChunkView| word_of(text, offs, c))
}

/// The words of one sentence, or `None` when a label id or a chunk's span does not fit.
fn seg_sentence(
    vocab: &Vec<String>,
    t: &Tensor,
    row: usize,
    len: usize,
    offs: &Vec<(usize, usize)>,
    text: &String,
) -> (r: Option<Vec<String>>)
    requires
        rank2(*t),
        row < t.shape@[0],
    ensures
        r is Some <==> seg_sentence_ok(vocab@, *t, row as int, len as int, offs@, text@),
        r matches Some(words) ==> strings_view(words@) == seg_sentence_words(vocab@, *t, row as int, len as int, offs@, text@),
{
    if len > t.shape[1] {
        return None;
    }
    let mut labels: Vec<&str> = Vec::new();
    let mut c: usize = 0;
    while c < len
        invariant
            rank2(*t),
            row < t.shape@[0],
            len <= t.shape@[1],
            c <= len,
            labels@.len() == c,
            row_fits(vocab@.len() as int, *t, row as int, c as int),
            forall|k: int| 0 <= k < c ==> (#[trigger] labels@[k])@ == vocab@[el2(*t, row as int, k) as int]@,
        decreases len - c,
    {
        let id = get2(t, row, c);
        if id < 0 || id as u64 >= vocab.len() as u64 {
            return None;
        }
        labels.push(vocab[id as usize].as_str());
        c = c + 1;
    }
    assert(labels_view(labels@) =~= row_labels(vocab@, *t, row as int, len as int));
    let chunks = get_entities(labels);
    let ghost cs = seg_chunks(vocab@, *t, row as int, len as int);
    let chars = text.as_str();
    let text_len = chars.unicode_len();
    let mut words: Vec<String> = Vec::new();
    let mut k: usize = 0;
    while k < chunks.len()
        invariant
            cs == seg_chunks(vocab@, *t, row as int, len as int),
            crate::entities::chunks_view(chunks@) == cs,
            text_len == text@.len(),
            chars@ == text@,
            k <= chunks@.len(),
            words@.len() == k,
            forall|q: int| 0 <= q < k ==> span_fits(text@, offs@, #[trigger] cs[q]),
            forall|q: int| 0 <= q < k ==> (#[trigger] words@[q])@ == word_of(text@, offs@, cs[q]),
        decreases chunks@.len() - k,
    {
        let (_, start, end) = chunks[k];
        assert(cs[k as int] == (chunks@[k as int].0@, start as int, end as int));
        let olen = offs.len();
        if olen == 0 || start >= olen - 1 || end >= olen - 1 {
            return None;
        }
        let from = offs[start + 1].0;
        let to = offs[end + 1].1;
        if from > to || to > text_len {
            return None;
        }
        let word = chars.substring_char(from, to).to_owned();
        words.push(word);
        k = k + 1;
    }
    assert(strings_view(words@) =~= seg_sentence_words(vocab@, *t, row as int, len as int, offs@, text@));
    Some(words)
}

/// The segmentation tensor, lengths, offsets and texts fit together for every sentence.
pub open spec fn seg_ok(
    vocab: Seq<String>,
    t: Tensor,
    lengths: Seq<usize>,
    offsets: Seq<Vec<(usize, usize)>>,
    texts: Seq<String>,
) -> bool {
    &&& rank2(t)
    &&& texts.len() <= t.shape@[0]
    &&& lengths.len() == texts.len()
    &&& offsets.len() == texts.len()
    &&& forall|i: int|
        0 <= i < texts.len() ==> #[trigger] seg_sentence_ok(vocab, t, i, lengths[i] as int, offsets[i]@, texts[i]@)
}

/// Segments every sentence into words: the segmentation labels of its tokens (as many as
/// its length, the sentence-start marker not counted) are chunked, and each chunk becomes
/// the text between its first token's start and its last token's end.
pub fn decode_seg(
    vocab: &Vec<String>,
    tags: &Tensor,
    lengths: &Vec<usize>,
    offsets: &Vec<Vec<(usize, usize)>>,
    texts: &Vec<String>,
) -> (r: Result<Vec<Vec<String>>, LTPError>)
    ensures
        r is Ok <==> seg_ok(vocab@, *tags, lengths@, offsets@, texts@),
        r is Err ==> r->Err_0 is ShapeError,
        r matches Ok(words) ==> words@.len() == texts@.len() && forall|i: int|
            0 <= i < texts@.len() ==> strings_view(#[trigger] words@[i]@) == seg_sentence_words(
                vocab@,
                *tags,
                i,
                lengths@[i] as int,
                offsets@[i]@,
                texts@[i]@,
            ),
{
    let n = texts.len();
    if !is_rank2(tags) || n > tags.shape[0] || lengths.len() != n || offsets.len() != n {
        return Err(shape_error());
    }
    let mut words: Vec<Vec<String>> = Vec::new();
    let mut i: usize = 0;
    while i < n
        invariant
            n == texts@.len(),
            rank2(*tags),
            n <= tags.shape@[0],
            lengths@.len() == n,
            offsets@.len() == n,
            i <= n,
            words@.len() == i,
            forall|k: int| 0 <= k < i ==> #[trigger] seg_sentence_ok(vocab@, *tags, k, lengths@[k] as int, offsets@[k]@, texts@[k]@),
            forall|k: int|
                0 <= k < i ==> strings_view(#[trigger] words@[k]@) == seg_sentence_words(
                    vocab@,
                    *tags,
                    k,
                    lengths@[k] as int,
                    offsets@[k]@,
                    texts@[k]@,
                ),
        decreases n - i,
    {
        match seg_sentence(vocab, tags, i, lengths[i], &offsets[i], &texts[i]) {
            Some(sentence) => {
                words.push(sentence);
            },
            None => {
                return Err(shape_error());
            },
        }
        i = i + 1;
    }
    Ok(words)
}

/// Every sentence's row holds a vocabulary id for each of its words.
pub open spec fn tags_ok(vocab: Seq<String>, t: Tensor, word_nums: Seq<usize>) -> bool {
    &&& rank2(t)
    &&& word_nums.len() <= t.shape@[0]
    &&& forall|i: int| 0 <= i < word_nums.len() ==> #[trigger] row_fits(vocab.len() as int, t, i, word_nums[i] as int)
}

/// Reads one label per word of each sentence (pos and ner): row `i` of the tensor, cut
/// to the sentence's word count, through the vocabulary.
pub fn decode_tags(vocab: &Vec<String>, t: &Tensor, word_nums: &Vec<usize>) -> (r: Result<Vec<Vec<String>>, LTPError>)
    ensures
        r is Ok <==> tags_ok(vocab@, *t, word_nums@),
        r is Err ==> r->Err_0 is ShapeError,
        r matches Ok(tags) ==> tags@.len() == word_nums@.len() && forall|i: int|
            0 <= i < word_nums@.len() ==> strings_view(#[trigger] tags@[i]@) == row_labels(vocab@, *t, i, word_nums@[i] as int),
{
    let n = word_nums.len();
    if !is_rank2(t) || n > t.shape[0] {
        return Err(shape_error());
    }
    let mut tags: Vec<Vec<String>> = Vec::new();
    let mut i: usize = 0;
    while i < n
        invariant
            n == word_nums@.len(),
            rank2(*t),
            n <= t.shape@[0],
            i <= n,
            tags@.len() == i,
            forall|k: int| 0 <= k < i ==> #[trigger] row_fits(vocab@.len() as int, *t, k, word_nums@[k] as int),
            forall|k: int| 0 <= k < i ==> strings_view(#[trigger] tags@[k]@) == row_labels(vocab@, *t, k, word_nums@[k] as int),
        decreases n - i,
    {
        let len = word_nums[i];
        if len > t.shape[1] {
            assert(!row_fits(vocab@.len() as int, *t, i as int, word_nums@[i as int] as int));
            return Err(shape_error());
        }
        let mut row: Vec<String> = Vec::new();
        let mut c: usize = 0;
        while c < len
            invariant
                rank2(*t),
                i < t.shape@[0],
                len <= t.shape@[1],
                c <= len,
                row@.len() == c,
                row_fits(vocab@.len() as int, *t, i as int, c as int),
                len == word_nums@[i as int],
                i < n,
                n == word_nums@.len(),
                forall|q: int| 0 <= q < c ==> (#[trigger] row@[q])@ == vocab@[el2(*t, i as int, q) as int]@,
            decreases len - c,
        {
            let id = get2(t, i, c);
            if id < 0 || id as u64 >= vocab.len() as u64 {
                assert(!row_fits(vocab@.len() as int, *t, i as int, word_nums@[i as int] as int));
                return Err(shape_error());
            }
            row.push(vocab[id as usize].clone());
            c = c + 1;
        }
        assert(strings_view(row@) =~= row_labels(vocab@, *t, i as int, len as int));
        tags.push(row);
        i = i + 1;
    }
    Ok(tags)
}

/// The role labels of predicate `q` of sentence `i`: its decoded path through the vocabulary.
pub open spec fn srl_labels(vocab: Seq<String>, history: Seq<i64>, last: Seq<i64>, word_nums: Seq<usize>, i: int, q: int) -> Seq<Seq<char>> {
    let k = first_seq(word_nums, i) + q;
    path(history, last[k], k, word_nums[i] as int, max_len(word_nums), total_len(word_nums), vocab.len() as int).map_values(
        |x: i64| vocab[x as int]@,
    )
}

/// Decodes semantic roles: one label sequence per word of each sentence (the word as
/// predicate), as long as the sentence, read from the backpointer history through the
/// vocabulary and grouped by sentence.
pub fn decode_srl(
    vocab: &Vec<String>,
    history: &Tensor,
    last_tags: &Tensor,
    word_nums: &Vec<usize>,
) -> (r: Result<Vec<Vec<Vec<String>>>, LTPError>)
    ensures
        r is Ok <==> history_fits(history.data@, last_tags.data@, word_nums@, vocab@.len() as int),
        r is Err ==> r->Err_0 is ShapeError,
        r matches Ok(srl) ==> srl@.len() == word_nums@.len() && forall|i: int|
            0 <= i < word_nums@.len() ==> (#[trigger] srl@[i])@.len() == word_nums@[i] && forall|q: int|
                0 <= q < word_nums@[i] ==> strings_view(#[trigger] srl@[i]@[q]@) == srl_labels(
                    vocab@,
                    history.data@,
                    last_tags.data@,
                    word_nums@,
                    i,
                    q,
                ),
{
    let ghost h = history.data@;
    let ghost last = last_tags.data@;
    let ghost lens = word_nums@;
    let ghost labels_num = vocab@.len() as int;
    if !history_fits_check(history.data.as_slice(), last_tags.data.as_slice(), word_nums.as_slice(), vocab.len()) {
        return Err(shape_error());
    }
    let paths = viterbi_decode_postprocess(
        history.data.as_slice(),
        last_tags.data.as_slice(),
        word_nums.as_slice(),
        vocab.len(),
    );
    proof {
        lemma_max_bounds(lens);
    }
    let n = word_nums.len();
    let np = paths.len();
    let mut result: Vec<Vec<Vec<String>>> = Vec::new();
    let mut k: usize = 0;
    let mut i: usize = 0;
    assert(lens.subrange(0, 0) =~= Seq::<usize>::empty());
    while i < n
        invariant
            n == lens.len(),
            lens == word_nums@,
            h == history.data@,
            last == last_tags.data@,
            labels_num == vocab@.len(),
            history_fits(h, last, lens, labels_num),
            paths@.len() == total_len(lens),
            forall|s2: int, q: int|
                0 <= s2 < lens.len() && 0 <= q < lens[s2] ==> #[trigger] paths@[first_seq(lens, s2) + q]@
                    == path(h, last[first_seq(lens, s2) + q], first_seq(lens, s2) + q, lens[s2] as int, max_len(lens), total_len(lens), labels_num),
            i <= n,
            np == paths@.len(),
            k as int == first_seq(lens, i as int),
            result@.len() == i,
            forall|s2: int|
                0 <= s2 < i ==> (#[trigger] result@[s2])@.len() == lens[s2] && forall|q: int|
                    0 <= q < lens[s2] ==> strings_view(#[trigger] result@[s2]@[q]@) == srl_labels(vocab@, h, last, lens, s2, q),
        decreases n - i,
    {
        proof {
            lemma_prefix_total(lens, i as int);
        }
        let len = word_nums[i];
        let mut sentence: Vec<Vec<String>> = Vec::new();
        let mut q: usize = 0;
        while q < len
            invariant
                n == lens.len(),
                lens == word_nums@,
                h == history.data@,
                last == last_tags.data@,
                labels_num == vocab@.len(),
                history_fits(h, last, lens, labels_num),
                paths@.len() == total_len(lens),
                forall|s2: int, q2: int|
                    0 <= s2 < lens.len() && 0 <= q2 < lens[s2] ==> #[trigger] paths@[first_seq(lens, s2) + q2]@
                        == path(h, last[first_seq(lens, s2) + q2], first_seq(lens, s2) + q2, lens[s2] as int, max_len(lens), total_len(lens), labels_num),
                i < n,
                len == lens[i as int],
                first_seq(lens, i as int + 1) == first_seq(lens, i as int) + len,
                first_seq(lens, i as int + 1) <= total_len(lens),
                first_seq(lens, i as int) >= 0,
                np == paths@.len(),
                q <= len,
                k as int == first_seq(lens, i as int) + q,
                sentence@.len() == q,
                forall|q2: int|
                    0 <= q2 < q ==> strings_view(#[trigger] sentence@[q2]@) == srl_labels(vocab@, h, last, lens, i as int, q2),
            decreases len - q,
        {
            let ghost p = paths@[k as int]@;
            assert(p == path(h, last[k as int], k as int, len as int, max_len(lens), total_len(lens), labels_num));
            proof {
                lemma_max_bounds(lens);
                let mx = max_len(lens);
                let tot = total_len(lens);
                assert(len <= mx);
                assert(0 <= last[k as int] < labels_num);
                let lim = first_seq(lens, i as int) + len;
                if len >= 2 {
                    assert(lens[i as int] >= 2);
                    assert(history_index(mx - 2, k + 1, 0, tot, labels_num) <= history_index(mx - 2, lim, 0, tot, labels_num))
                        by (nonlinear_arith)
                        requires k + 1 <= lim, labels_num >= 0;
                }
                assert forall|c2: int| 0 <= c2 < p.len() implies 0 <= #[trigger] p[c2] < labels_num by {
                    lemma_path_labels(h, last[k as int], k as int, len as int, mx, tot, labels_num, c2);
                }
            }
            let mut tags: Vec<String> = Vec::new();
            let mut c: usize = 0;
            while c < paths[k].len()
                invariant
                    0 <= k < paths@.len(),
                    p == paths@[k as int]@,
                    p == path(h, last[k as int], k as int, len as int, max_len(lens), total_len(lens), labels_num),
                    labels_num == vocab@.len(),
                    c <= p.len(),
                    tags@.len() == c,
                    forall|c2: int| 0 <= c2 < c ==> (#[trigger] tags@[c2])@ == vocab@[p[c2] as int]@,
                    forall|c2: int| 0 <= c2 < p.len() ==> 0 <= #[trigger] p[c2] < labels_num,
                decreases p.len() - c,
            {
                let label = paths[k][c];
                assert(label == p[c as int]);
                let vl = vocab.len();
                assert(0 <= label < vl);
                let id = label as usize;
                tags.push(vocab[id].clone());
                c = c + 1;
            }
            assert(strings_view(tags@) =~= srl_labels(vocab@, h, last, lens, i as int, q as int));
            sentence.push(tags);
            k = k + 1;
            q = q + 1;
        }
        result.push(sentence);
        i = i + 1;
    }
    Ok(result)
}

/// Word counts with the virtual root added to each sentence.
pub open spec fn with_root(word_nums: Seq<usize>) -> Seq<usize> {
    word_nums.map_values(|w: usize| (w + 1) as usize)
}

/// The arc scores hold one square block per sentence, as wide as the longest sentence with
/// its root, and fit the tree decoder.
pub open spec fn arc_scores_ok(t: Tensor, word_nums: Seq<usize>) -> bool {
    &&& forall|i: int| 0 <= i < word_nums.len() ==> #[trigger] word_nums[i] < MAX_SENTENCE
    &&& rank3(t)
    &&& word_nums.len() <= t.shape@[0]
    &&& t.shape@[1] == max_len(with_root(word_nums))
    &&& t.shape@[2] == max_len(with_root(word_nums))
    &&& forall|k: int| 0 <= k < t.data@.len() ==> -SCORE_LIMIT <= #[trigger] t.data@[k] <= SCORE_LIMIT
}

/// The heads that the tree decoder gives sentence `i`, root included at position 0.
pub open spec fn tree_heads(t: Tensor, word_nums: Seq<usize>, i: int) -> Seq<usize> {
    let m = max_len(with_root(word_nums));
    eisner_heads(t.data@, i * (m * m), m, word_nums[i] + 1, 0)
}

fn arc_scores_check(t: &Tensor, word_nums: &Vec<usize>) -> (r: Option<Vec<usize>>)
    ensures
        r is Some <==> arc_scores_ok(*t, word_nums@),
        r matches Some(cls) ==> cls@ == with_root(word_nums@),
{
    let n = word_nums.len();
    let mut cls: Vec<usize> = Vec::new();
    let mut m: usize = 0;
    let mut i: usize = 0;
    while i < n
        invariant
            n == word_nums@.len(),
            i <= n,
            cls@ == with_root(word_nums@.subrange(0, i as int)),
            forall|k: int| 0 <= k < i ==> #[trigger] word_nums@[k] < MAX_SENTENCE,
            m as int == max_len(cls@),
        decreases n - i,
    {
        if word_nums[i] >= MAX_SENTENCE {
            return None;
        }
        let ghost before = cls@;
        cls.push(word_nums[i] + 1);
        assert(cls@.drop_last() == before);
        if word_nums[i] + 1 > m {
            m = word_nums[i] + 1;
        }
        i = i + 1;
        assert(cls@ =~= with_root(word_nums@.subrange(0, i as int)));
    }
    assert(word_nums@.subrange(0, n as int) =~= word_nums@);
    if !is_rank3(t) || n > t.shape[0] || t.shape[1] != m || t.shape[2] != m {
        return None;
    }
    let mut k: usize = 0;
    while k < t.data.len()
        invariant
            k <= t.data@.len(),
            forall|q: int| 0 <= q < k ==> -SCORE_LIMIT <= #[trigger] t.data@[q] <= SCORE_LIMIT,
        decreases t.data@.len() - k,
    {
        if t.data[k] < -SCORE_LIMIT || t.data[k] > SCORE_LIMIT {
            return None;
        }
        k = k + 1;
    }
    Some(cls)
}

/// The facts that reading the decoded heads needs.
proof fn lemma_tree_heads(t: Tensor, word_nums: Seq<usize>, i: int)
    requires
        arc_scores_ok(t, word_nums),
        0 <= i < word_nums.len(),
    ensures
        tree_heads(t, word_nums, i).len() == word_nums[i] + 1,
        forall|d: int| 1 <= d <= word_nums[i] ==> #[trigger] tree_heads(t, word_nums, i)[d] <= word_nums[i] && tree_heads(t, word_nums, i)[d] != d,
        word_nums[i] + 1 <= t.shape@[1],
{
    let m = max_len(with_root(word_nums));
    let n = word_nums[i] + 1;
    lemma_max_bounds(with_root(word_nums));
    assert(with_root(word_nums)[i] == n);
    lemma_eisner_projective_tree(t.data@, i * (m * m), m, n);
    assert forall|d: int| 1 <= d <= word_nums[i] implies #[trigger] tree_heads(t, word_nums, i)[d] <= word_nums[i] && tree_heads(t, word_nums, i)[d] != d by {
        assert(eisner_arcs(t.data@, i * (m * m), m, n).dom().contains(d));
    }
}

/// Decodes the tree of every sentence, root included, from the arc scores.
fn decode_trees(t: &Tensor, cls: &Vec<usize>, word_nums: Ghost<Seq<usize>>) -> (r: Vec<Vec<usize>>)
    requires
        arc_scores_ok(*t, word_nums@),
        cls@ == with_root(word_nums@),
    ensures
        r@.len() == word_nums@.len(),
        forall|i: int| 0 <= i < word_nums@.len() ==> (#[trigger] r@[i])@ == tree_heads(*t, word_nums@, i),
{
    let ghost lens = cls@;
    let ghost m = max_len(lens);
    proof {
        lemma_max_bounds(lens);
        assert forall|b: int| 0 <= b < lens.len() implies 1 <= #[trigger] lens[b] <= MAX_SENTENCE by {
            assert(lens[b] == word_nums@[b] + 1);
        }
        assert(lens.len() * (m * m) <= t.data@.len()) by (nonlinear_arith)
            requires
                lens.len() <= t.shape@[0],
                t.data@.len() == t.shape@[0] * (m * m),
                0 <= m;
    }
    eisner(t.data.as_slice(), cls.as_slice(), false)
}

pub open spec fn dep_view(d: DEP) -> (int, Seq<char>) {
    (d.arc as int, d.rel@)
}

/// The labels tensor covers every sentence block with the root, and names a relation of the
/// vocabulary for every arc of the decoded trees.
pub open spec fn dep_labels_ok(vocab: Seq<String>, scores: Tensor, labels: Tensor, word_nums: Seq<usize>) -> bool {
    &&& rank3(labels)
    &&& word_nums.len() <= labels.shape@[0]
    &&& max_len(with_root(word_nums)) <= labels.shape@[1]
    &&& max_len(with_root(word_nums)) <= labels.shape@[2]
    &&& forall|i: int, d: int|
        0 <= i < word_nums.len() && 1 <= d <= word_nums[i] ==> 0 <= #[trigger] el3(labels, i, d, tree_heads(scores, word_nums, i)[d] as int)
            < vocab.len()
}

/// The dependency arcs of sentence `i`, one per word: its decoded head and the relation
/// labelled for that head.
pub open spec fn dep_edges(vocab: Seq<String>, scores: Tensor, labels: Tensor, word_nums: Seq<usize>, i: int) -> Seq<(int, Seq<char>)> {
    Seq::new(
        word_nums[i] as nat,
        |k: int|
            {
                let head = tree_heads(scores, word_nums, i)[k + 1] as int;
                (head, vocab[el3(labels, i, k + 1, head) as int]@)
            },
    )
}

/// Decodes the dependency tree of every sentence (word counts plus the virtual root) and
/// lists one arc per word.
pub fn decode_dep(vocab: &Vec<String>, scores: &Tensor, labels: &Tensor, word_nums: &Vec<usize>) -> (r: Result<Vec<Vec<DEP>>, LTPError>)
    ensures
        r is Ok <==> arc_scores_ok(*scores, word_nums@) && dep_labels_ok(vocab@, *scores, *labels, word_nums@),
        r is Err ==> r->Err_0 is ShapeError,
        r matches Ok(dep) ==> dep@.len() == word_nums@.len() && forall|i: int|
            0 <= i < word_nums@.len() ==> (#[trigger] dep@[i])@.map_values(|d: DEP| dep_view(d)) == dep_edges(
                vocab@,
                *scores,
                *labels,
                word_nums@,
                i,
            ),
{
    let cls = match arc_scores_check(scores, word_nums) {
        Some(cls) => cls,
        None => {
            return Err(shape_error());
        },
    };
    let ghost m = max_len(with_root(word_nums@));
    proof {
        lemma_max_bounds(with_root(word_nums@));
    }
    if !is_rank3(labels) || word_nums.len() > labels.shape[0] || scores.shape[1] > labels.shape[1] || scores.shape[1] > labels.shape[2] {
        return Err(shape_error());
    }
    let heads = decode_trees(scores, &cls, Ghost(word_nums@));
    let n = word_nums.len();
    let mut result: Vec<Vec<DEP>> = Vec::new();
    let mut i: usize = 0;
    while i < n
        invariant
            n == word_nums@.len(),
            arc_scores_ok(*scores, word_nums@),
            rank3(*labels),
            n <= labels.shape@[0],
            m == max_len(with_root(word_nums@)),
            m <= labels.shape@[1],
            m <= labels.shape@[2],
            heads@.len() == n,
            forall|k: int| 0 <= k < n ==> (#[trigger] heads@[k])@ == tree_heads(*scores, word_nums@, k),
            i <= n,
            result@.len() == i,
            forall|k: int, d: int|
                0 <= k < i && 1 <= d <= word_nums@[k] ==> 0 <= #[trigger] el3(*labels, k, d, tree_heads(*scores, word_nums@, k)[d] as int)
                    < vocab@.len(),
            forall|k: int|
                0 <= k < i ==> (#[trigger] result@[k])@.map_values(|d: DEP| dep_view(d)) == dep_edges(vocab@, *scores, *labels, word_nums@, k),
        decreases n - i,
    {
        proof {
            lemma_tree_heads(*scores, word_nums@, i as int);
        }
        let w = word_nums[i];
        let mut edges: Vec<DEP> = Vec::new();
        let mut d: usize = 1;
        while d <= w
            invariant
                n == word_nums@.len(),
                i < n,
                w == word_nums@[i as int],
                w + 1 <= m,
                rank3(*labels),
                n <= labels.shape@[0],
                m <= labels.shape@[1],
                m <= labels.shape@[2],
                heads@.len() == n,
                heads@[i as int]@ == tree_heads(*scores, word_nums@, i as int),
                tree_heads(*scores, word_nums@, i as int).len() == w + 1,
                forall|q: int| 1 <= q <= w ==> #[trigger] tree_heads(*scores, word_nums@, i as int)[q] <= w,
                1 <= d <= w + 1,
                edges@.len() == d - 1,
                forall|q: int| 1 <= q < d ==> 0 <= #[trigger] el3(*labels, i as int, q, tree_heads(*scores, word_nums@, i as int)[q] as int) < vocab@.len(),
                forall|q: int| 0 <= q < d - 1 ==> dep_view(#[trigger] edges@[q]) == dep_edges(vocab@, *scores, *labels, word_nums@, i as int)[q],
            decreases w + 1 - d,
        {
            let head = heads[i][d];
            assert(head <= w);
            let rel = get3(labels, i, d, head);
            let vl = vocab.len();
            if rel < 0 || rel as u64 >= vl as u64 {
                return Err(shape_error());
            }
            edges.push(DEP { arc: head, rel: vocab[rel as usize].clone() });
            d = d + 1;
        }
        assert(edges@.map_values(|e: DEP| dep_view(e)) =~= dep_edges(vocab@, *scores, *labels, word_nums@, i as int));
        result.push(edges);
        i = i + 1;
    }
    Ok(result)
}

pub open spec fn sdp_view(e: SDP) -> (int, int, Seq<char>) {
    (e.src as int, e.tgt as int, e.rel@)
}

/// The arc from `cur` to `tgt` of sentence `i` is kept: its score is positive, or the
/// decoded tree has it.
pub open spec fn sdp_keep(scores: Tensor, word_nums: Seq<usize>, i: int, cur: int, tgt: int) -> bool {
    el3(scores, i, cur, tgt) > 0 || tree_heads(scores, word_nums, i)[cur] as int == tgt
}

/// The kept arcs of `cur` to the targets below `upto`, in target order.
pub open spec fn sdp_row(vocab: Seq<String>, scores: Tensor, labels: Tensor, word_nums: Seq<usize>, i: int, cur: int, upto: int) -> Seq<(int, int, Seq<char>)>
    decreases upto,
{
    if upto <= 0 {
        seq![]
    } else {
        let prev = sdp_row(vocab, scores, labels, word_nums, i, cur, upto - 1);
        let tgt = upto - 1;
        if sdp_keep(scores, word_nums, i, cur, tgt) {
            prev.push((cur, tgt, vocab[el3(labels, i, cur, tgt) as int]@))
        } else {
            prev
        }
    }
}

/// The kept arcs of the words `1..upto`, word by word.
pub open spec fn sdp_rows(vocab: Seq<String>, scores: Tensor, labels: Tensor, word_nums: Seq<usize>, i: int, upto: int) -> Seq<(int, int, Seq<char>)>
    decreases upto,
{
    if upto <= 1 {
        seq![]
    } else {
        sdp_rows(vocab, scores, labels, word_nums, i, upto - 1) + sdp_row(vocab, scores, labels, word_nums, i, upto - 1, word_nums[i] + 1)
    }
}

/// The semantic dependency arcs of sentence `i`: from each word to each position (the root
/// included), those kept, in that order.
pub open spec fn sdp_edges(vocab: Seq<String>, scores: Tensor, labels: Tensor, word_nums: Seq<usize>, i: int) -> Seq<(int, int, Seq<char>)> {
    sdp_rows(vocab, scores, labels, word_nums, i, word_nums[i] + 1)
}

pub open spec fn sdp_labels_ok(vocab: Seq<String>, scores: Tensor, labels: Tensor, word_nums: Seq<usize>) -> bool {
    &&& rank3(labels)
    &&& word_nums.len() <= labels.shape@[0]
    &&& max_len(with_root(word_nums)) <= labels.shape@[1]
    &&& max_len(with_root(word_nums)) <= labels.shape@[2]
    &&& forall|i: int, cur: int, tgt: int|
        0 <= i < word_nums.len() && 1 <= cur <= word_nums[i] && 0 <= tgt <= word_nums[i] && #[trigger] sdp_keep(
            scores,
            word_nums,
            i,
            cur,
            tgt,
        ) ==> 0 <= el3(labels, i, cur, tgt) < vocab.len()
}

/// Decodes the semantic dependency graph of every sentence: every arc from a word to a
/// position whose score is positive, and every arc of the decoded tree.
pub fn decode_sdp(vocab: &Vec<String>, scores: &Tensor, labels: &Tensor, word_nums: &Vec<usize>) -> (r: Result<Vec<Vec<SDP>>, LTPError>)
    ensures
        r is Ok <==> arc_scores_ok(*scores, word_nums@) && sdp_labels_ok(vocab@, *scores, *labels, word_nums@),
        r is Err ==> r->Err_0 is ShapeError,
        r matches Ok(sdp) ==> sdp@.len() == word_nums@.len() && forall|i: int|
            0 <= i < word_nums@.len() ==> (#[trigger] sdp@[i])@.map_values(|e: SDP| sdp_view(e)) == sdp_edges(
                vocab@,
                *scores,
                *labels,
                word_nums@,
                i,
            ),
{
    let cls = match arc_scores_check(scores, word_nums) {
        Some(cls) => cls,
        None => {
            return Err(shape_error());
        },
    };
    let ghost m = max_len(with_root(word_nums@));
    proof {
        lemma_max_bounds(with_root(word_nums@));
    }
    if !is_rank3(labels) || word_nums.len() > labels.shape[0] || scores.shape[1] > labels.shape[1] || scores.shape[1] > labels.shape[2] {
        return Err(shape_error());
    }
    let heads = decode_trees(scores, &cls, Ghost(word_nums@));
    let n = word_nums.len();
    let mut result: Vec<Vec<SDP>> = Vec::new();
    let mut i: usize = 0;
    while i < n
        invariant
            n == word_nums@.len(),
            arc_scores_ok(*scores, word_nums@),
            rank3(*labels),
            n <= labels.shape@[0],
            m == max_len(with_root(word_nums@)),
            m <= labels.shape@[1],
            m <= labels.shape@[2],
            heads@.len() == n,
            forall|k: int| 0 <= k < n ==> (#[trigger] heads@[k])@ == tree_heads(*scores, word_nums@, k),
            i <= n,
            result@.len() == i,
            forall|k: int, cur: int, tgt: int|
                0 <= k < i && 1 <= cur <= word_nums@[k] && 0 <= tgt <= word_nums@[k] && #[trigger] sdp_keep(*scores, word_nums@, k, cur, tgt)
                    ==> 0 <= el3(*labels, k, cur, tgt) < vocab@.len(),
            forall|k: int|
                0 <= k < i ==> (#[trigger] result@[k])@.map_values(|e: SDP| sdp_view(e)) == sdp_edges(vocab@, *scores, *labels, word_nums@, k),
        decreases n - i,
    {
        proof {
            lemma_tree_heads(*scores, word_nums@, i as int);
        }
        let w = word_nums[i];
        let mut edges: Vec<SDP> = Vec::new();
        let mut cur: usize = 1;
        while cur <= w
            invariant
                n == word_nums@.len(),
                i < n,
                w == word_nums@[i as int],
                w + 1 <= m,
                rank3(*scores),
                n <= scores.shape@[0],
                m == scores.shape@[1],
                m == scores.shape@[2],
                rank3(*labels),
                n <= labels.shape@[0],
                m <= labels.shape@[1],
                m <= labels.shape@[2],
                heads@.len() == n,
                heads@[i as int]@ == tree_heads(*scores, word_nums@, i as int),
                tree_heads(*scores, word_nums@, i as int).len() == w + 1,
                1 <= cur <= w + 1,
                forall|c: int, tgt: int|
                    1 <= c < cur && 0 <= tgt <= w && #[trigger] sdp_keep(*scores, word_nums@, i as int, c, tgt)
                        ==> 0 <= el3(*labels, i as int, c, tgt) < vocab@.len(),
                edges@.map_values(|e: SDP| sdp_view(e)) == sdp_rows(vocab@, *scores, *labels, word_nums@, i as int, cur as int),
            decreases w + 1 - cur,
        {
            let ghost row_start = edges@.map_values(|e: SDP| sdp_view(e));
            let mut tgt: usize = 0;
            while tgt <= w
                invariant
                    n == word_nums@.len(),
                    i < n,
                    w == word_nums@[i as int],
                    w + 1 <= m,
                    rank3(*scores),
                    n <= scores.shape@[0],
                    m == scores.shape@[1],
                    m == scores.shape@[2],
                    rank3(*labels),
                    n <= labels.shape@[0],
                    m <= labels.shape@[1],
                    m <= labels.shape@[2],
                    heads@.len() == n,
                    heads@[i as int]@ == tree_heads(*scores, word_nums@, i as int),
                    tree_heads(*scores, word_nums@, i as int).len() == w + 1,
                    1 <= cur <= w,
                    0 <= tgt <= w + 1,
                    forall|c: int, t2: int|
                        1 <= c < cur && 0 <= t2 <= w && #[trigger] sdp_keep(*scores, word_nums@, i as int, c, t2)
                            ==> 0 <= el3(*labels, i as int, c, t2) < vocab@.len(),
                    forall|t2: int|
                        0 <= t2 < tgt && #[trigger] sdp_keep(*scores, word_nums@, i as int, cur as int, t2)
                            ==> 0 <= el3(*labels, i as int, cur as int, t2) < vocab@.len(),
                    row_start == sdp_rows(vocab@, *scores, *labels, word_nums@, i as int, cur as int),
                    edges@.map_values(|e: SDP| sdp_view(e)) == row_start + sdp_row(vocab@, *scores, *labels, word_nums@, i as int, cur as int, tgt as int),
                decreases w + 1 - tgt,
            {
                let score = get3(scores, i, cur, tgt);
                let ghost before = edges@;
                if score > 0 || heads[i][cur] == tgt {
                    let rel = get3(labels, i, cur, tgt);
                    let vl = vocab.len();
                    if rel < 0 || rel as u64 >= vl as u64 {
                        assert(sdp_keep(*scores, word_nums@, i as int, cur as int, tgt as int));
                        return Err(shape_error());
                    }
                    edges.push(SDP { src: cur, tgt: tgt, rel: vocab[rel as usize].clone() });
                    assert(edges@.map_values(|e: SDP| sdp_view(e)) =~= before.map_values(|e: SDP| sdp_view(e)).push(
                        (cur as int, tgt as int, vocab@[rel as int]@),
                    ));
                }
                tgt = tgt + 1;
                assert(row_start + sdp_row(vocab@, *scores, *labels, word_nums@, i as int, cur as int, tgt as int)
                    =~= edges@.map_values(|e: SDP| sdp_view(e)));
            }
            cur = cur + 1;
        }
        result.push(edges);
        i = i + 1;
    }
    Ok(result)
}

pub open spec fn one_if<T>(o: Option<T>) -> int {
    if o is Some { 1 } else { 0 }
}

/// How many tensors the scoring engine hands back for this vocabulary: segmentation, then
/// pos, ner, srl (history and last labels), dep and sdp (scores and labels) when loaded.
pub open spec fn n_outputs(v: Vocab) -> int {
    1 + one_if(v.pos) + one_if(v.ner) + 2 * one_if(v.srl) + 2 * one_if(v.dep) + 2 * one_if(v.sdp)
}

pub open spec fn ner_at(v: Vocab) -> int {
    1 + one_if(v.pos)
}

pub open spec fn srl_at(v: Vocab) -> int {
    ner_at(v) + one_if(v.ner)
}

pub open spec fn dep_at(v: Vocab) -> int {
    srl_at(v) + 2 * one_if(v.srl)
}

pub open spec fn sdp_at(v: Vocab) -> int {
    dep_at(v) + 2 * one_if(v.dep)
}

/// The number of words that segmentation finds in each sentence.
pub open spec fn word_counts(seg: Seq<String>, t: Tensor, lengths: Seq<usize>, n: int) -> Seq<usize> {
    Seq::new(n as nat, |i: int| seg_chunks(seg, t, i, lengths[i] as int).len() as usize)
}

/// The outputs of the scoring engine fit the vocabulary and the batch.
pub open spec fn batch_ok(
    vocab: Vocab,
    texts: Seq<String>,
    offsets: Seq<Vec<(usize, usize)>>,
    lengths: Seq<usize>,
    outputs: Seq<Tensor>,
) -> bool {
    let wn = word_counts(vocab.seg->Some_0@, outputs[0], lengths, texts.len() as int);
    &&& vocab.seg is Some
    &&& outputs.len() == n_outputs(vocab)
    &&& seg_ok(vocab.seg->Some_0@, outputs[0], lengths, offsets, texts)
    &&& vocab.pos is Some ==> tags_ok(vocab.pos->Some_0@, outputs[1], wn)
    &&& vocab.ner is Some ==> tags_ok(vocab.ner->Some_0@, outputs[ner_at(vocab)], wn)
    &&& vocab.srl is Some ==> history_fits(
        outputs[srl_at(vocab)].data@,
        outputs[srl_at(vocab) + 1].data@,
        wn,
        vocab.srl->Some_0@.len() as int,
    )
    &&& vocab.dep is Some ==> arc_scores_ok(outputs[dep_at(vocab)], wn) && dep_labels_ok(
        vocab.dep->Some_0@,
        outputs[dep_at(vocab)],
        outputs[dep_at(vocab) + 1],
        wn,
    )
    &&& vocab.sdp is Some ==> arc_scores_ok(outputs[sdp_at(vocab)], wn) && sdp_labels_ok(
        vocab.sdp->Some_0@,
        outputs[sdp_at(vocab)],
        outputs[sdp_at(vocab) + 1],
        wn,
    )
}

/// `r` is the analysis of sentence `i`: its words, and for each loaded task the labels or
/// arcs that the task's tensors give for those words; each task not loaded is `None`.
pub open spec fn sentence_ok(
    vocab: Vocab,
    texts: Seq<String>,
    offsets: Seq<Vec<(usize, usize)>>,
    lengths: Seq<usize>,
    outputs: Seq<Tensor>,
    i: int,
    r: LTPResult,
) -> bool {
    let seg = vocab.seg->Some_0@;
    let wn = word_counts(seg, outputs[0], lengths, texts.len() as int);
    &&& r.seg is Some
    &&& strings_view(r.seg->Some_0@) == seg_sentence_words(seg, outputs[0], i, lengths[i] as int, offsets[i]@, texts[i]@)
    &&& (r.pos is Some <==> vocab.pos is Some)
    &&& r.pos is Some ==> strings_view(r.pos->Some_0@) == row_labels(vocab.pos->Some_0@, outputs[1], i, wn[i] as int)
    &&& (r.ner is Some <==> vocab.ner is Some)
    &&& r.ner is Some ==> strings_view(r.ner->Some_0@) == row_labels(vocab.ner->Some_0@, outputs[ner_at(vocab)], i, wn[i] as int)
    &&& (r.srl is Some <==> vocab.srl is Some)
    &&& r.srl is Some ==> r.srl->Some_0@.len() == wn[i] && forall|q: int|
        0 <= q < wn[i] ==> strings_view(#[trigger] r.srl->Some_0@[q]@) == srl_labels(
            vocab.srl->Some_0@,
            outputs[srl_at(vocab)].data@,
            outputs[srl_at(vocab) + 1].data@,
            wn,
            i,
            q,
        )
    &&& (r.dep is Some <==> vocab.dep is Some)
    &&& r.dep is Some ==> r.dep->Some_0@.map_values(|d: DEP| dep_view(d)) == dep_edges(
        vocab.dep->Some_0@,
        outputs[dep_at(vocab)],
        outputs[dep_at(vocab) + 1],
        wn,
        i,
    )
    &&& (r.sdp is Some <==> vocab.sdp is Some)
    &&& r.sdp is Some ==> r.sdp->Some_0@.map_values(|e: SDP| sdp_view(e)) == sdp_edges(
        vocab.sdp->Some_0@,
        outputs[sdp_at(vocab)],
        outputs[sdp_at(vocab) + 1],
        wn,
        i,
    )
}

pub open spec fn opt_at<T>(o: Option<Vec<T>>, k: int) -> Option<T> {
    match o {
        Some(v) => Some(v@[k]),
        None => None,
    }
}

pub open spec fn opt_rest<T>(o: Option<Vec<T>>, i: int, n: int) -> Option<Seq<T>> {
    match o {
        Some(v) => Some(v@.subrange(i, n)),
        None => None,
    }
}

pub open spec fn opt_view<T>(o: Option<Vec<T>>) -> Option<Seq<T>> {
    match o {
        Some(v) => Some(v@),
        None => None,
    }
}

/// The analysis of sentence `k` from the lists of all sentences.
pub open spec fn gather(
    words: Seq<Vec<String>>,
    pos: Option<Vec<Vec<String>>>,
    ner: Option<Vec<Vec<String>>>,
    srl: Option<Vec<Vec<Vec<String>>>>,
    dep: Option<Vec<Vec<DEP>>>,
    sdp: Option<Vec<Vec<SDP>>>,
    k: int,
) -> LTPResult {
    LTPResult {
        seg: Some(words[k]),
        pos: opt_at(pos, k),
        ner: opt_at(ner, k),
        dep: opt_at(dep, k),
        sdp: opt_at(sdp, k),
        srl: opt_at(srl, k),
    }
}

/// Takes the first element of a present list.
fn take_first<T>(o: &mut Option<Vec<T>>) -> (r: Option<T>)
    requires
        *old(o) is Some ==> (*old(o))->Some_0@.len() > 0,
    ensures
        r == opt_at(*old(o), 0),
        opt_view(*final(o)) == opt_rest(*old(o), 1, opt_view(*old(o))->Some_0.len() as int),
{
    match o {
        Some(v) => Some(v.remove(0)),
        None => None,
    }
}

fn serde_error() -> (r: LTPError)
    ensures
        r is SerdeError,
{
    LTPError::SerdeError(String::from_str("vocabulary has no segmentation labels"))
}

fn extract_error() -> (r: LTPError)
    ensures
        r is TensorExtractError,
{
    LTPError::TensorExtractError(String::from_str("scoring engine returned an unexpected number of tensors"))
}

fn count(o: bool, k: usize) -> (r: usize)
    requires
        k <= 2,
    ensures
        r == if o { k } else { 0 },
{
    if o { k } else { 0 }
}

/// Turns the scoring engine's tensors for a batch into one analysis per sentence, in the
/// order of the sentences. `lengths` gives each sentence's token count without the start and
/// end markers, `offsets` each token's character span (token 0 is the start marker).
#[verifier::rlimit(60)]
pub fn decode_batch(
    vocab: &Vocab,
    texts: &Vec<String>,
    offsets: &Vec<Vec<(usize, usize)>>,
    lengths: &Vec<usize>,
    outputs: &Vec<Tensor>,
) -> (r: Result<Vec<LTPResult>, LTPError>)
    ensures
        r is Ok <==> batch_ok(*vocab, texts@, offsets@, lengths@, outputs@),
        vocab.seg is None ==> r is Err && r->Err_0 is SerdeError,
        vocab.seg is Some && outputs@.len() != n_outputs(*vocab) ==> r is Err && r->Err_0 is TensorExtractError,
        vocab.seg is Some && outputs@.len() == n_outputs(*vocab) && r is Err ==> r->Err_0 is ShapeError,
        r matches Ok(results) ==> results@.len() == texts@.len() && forall|i: int|
            0 <= i < texts@.len() ==> sentence_ok(*vocab, texts@, offsets@, lengths@, outputs@, i, #[trigger] results@[i]),
{
    let seg_vocab = match &vocab.seg {
        Some(v) => v,
        None => {
            return Err(serde_error());
        },
    };
    let expected = 1 + count(vocab.pos.is_some(), 1) + count(vocab.ner.is_some(), 1) + count(vocab.srl.is_some(), 2)
        + count(vocab.dep.is_some(), 2) + count(vocab.sdp.is_some(), 2);
    if outputs.len() != expected {
        return Err(extract_error());
    }
    let n = texts.len();
    let ghost v = *vocab;
    let ghost wn = word_counts(seg_vocab@, outputs@[0], lengths@, n as int);

    let words = match decode_seg(seg_vocab, &outputs[0], lengths, offsets, texts) {
        Ok(w) => w,
        Err(e) => {
            return Err(e);
        },
    };
    let mut word_nums: Vec<usize> = Vec::new();
    let mut i: usize = 0;
    while i < n
        invariant
            n == texts@.len(),
            words@.len() == n,
            forall|k: int|
                0 <= k < n ==> strings_view(#[trigger] words@[k]@) == seg_sentence_words(
                    seg_vocab@,
                    outputs@[0],
                    k,
                    lengths@[k] as int,
                    offsets@[k]@,
                    texts@[k]@,
                ),
            wn == word_counts(seg_vocab@, outputs@[0], lengths@, n as int),
            i <= n,
            word_nums@ == wn.subrange(0, i as int),
        decreases n - i,
    {
        assert(strings_view(words@[i as int]@).len() == words@[i as int]@.len());
        word_nums.push(words[i].len());
        i = i + 1;
        assert(word_nums@ =~= wn.subrange(0, i as int));
    }
    assert(word_nums@ =~= wn);

    let pos = match &vocab.pos {
        Some(tags) => match decode_tags(tags, &outputs[1], &word_nums) {
            Ok(x) => Some(x),
            Err(e) => {
                return Err(e);
            },
        },
        None => None,
    };
    let at = 1 + count(vocab.pos.is_some(), 1);
    let ner = match &vocab.ner {
        Some(tags) => match decode_tags(tags, &outputs[at], &word_nums) {
            Ok(x) => Some(x),
            Err(e) => {
                return Err(e);
            },
        },
        None => None,
    };
    let at = at + count(vocab.ner.is_some(), 1);
    let srl = match &vocab.srl {
        Some(tags) => match decode_srl(tags, &outputs[at], &outputs[at + 1], &word_nums) {
            Ok(x) => Some(x),
            Err(e) => {
                return Err(e);
            },
        },
        None => None,
    };
    let at = at + count(vocab.srl.is_some(), 2);
    let dep = match &vocab.dep {
        Some(rels) => match decode_dep(rels, &outputs[at], &outputs[at + 1], &word_nums) {
            Ok(x) => Some(x),
            Err(e) => {
                return Err(e);
            },
        },
        None => None,
    };
    let at = at + count(vocab.dep.is_some(), 2);
    let sdp = match &vocab.sdp {
        Some(rels) => match decode_sdp(rels, &outputs[at], &outputs[at + 1], &word_nums) {
            Ok(x) => Some(x),
            Err(e) => {
                return Err(e);
            },
        },
        None => None,
    };
    assert(batch_ok(*vocab, texts@, offsets@, lengths@, outputs@));

    let mut words = words;
    let mut pos = pos;
    let mut ner = ner;
    let mut srl = srl;
    let mut dep = dep;
    let mut sdp = sdp;
    let ghost words0 = words@;
    let ghost pos0 = pos;
    let ghost ner0 = ner;
    let ghost srl0 = srl;
    let ghost dep0 = dep;
    let ghost sdp0 = sdp;
    assert forall|k: int| 0 <= k < n implies sentence_ok(*vocab, texts@, offsets@, lengths@, outputs@, k, #[trigger] gather(words0, pos0, ner0, srl0, dep0, sdp0, k)) by {
    }
    let mut results: Vec<LTPResult> = Vec::new();
    let mut i: usize = 0;
    while i < n
        invariant
            n == texts@.len(),
            words0.len() == n,
            i <= n,
            words@ == words0.subrange(i as int, n as int),
            opt_view(pos) == opt_rest(pos0, i as int, n as int),
            opt_view(ner) == opt_rest(ner0, i as int, n as int),
            opt_view(srl) == opt_rest(srl0, i as int, n as int),
            opt_view(dep) == opt_rest(dep0, i as int, n as int),
            opt_view(sdp) == opt_rest(sdp0, i as int, n as int),
            pos0 is Some ==> pos0->Some_0@.len() == n,
            ner0 is Some ==> ner0->Some_0@.len() == n,
            srl0 is Some ==> srl0->Some_0@.len() == n,
            dep0 is Some ==> dep0->Some_0@.len() == n,
            sdp0 is Some ==> sdp0->Some_0@.len() == n,
            results@.len() == i,
            forall|k: int| 0 <= k < i ==> #[trigger] results@[k] == gather(words0, pos0, ner0, srl0, dep0, sdp0, k),
        decreases n - i,
    {
        let seg_words = words.remove(0);
        assert(seg_words == words0[i as int]);
        let ghost pos1 = pos;
        let ghost ner1 = ner;
        let ghost srl1 = srl;
        let ghost dep1 = dep;
        let ghost sdp1 = sdp;
        let one_pos = take_first(&mut pos);
        let one_ner = take_first(&mut ner);
        let one_srl = take_first(&mut srl);
        let one_dep = take_first(&mut dep);
        let one_sdp = take_first(&mut sdp);
        assert(one_pos == opt_at(pos0, i as int)) by {
            if pos0 is Some {
                assert(pos1->Some_0@[0] == pos0->Some_0@[i as int]);
            }
        }
        assert(one_ner == opt_at(ner0, i as int)) by {
            if ner0 is Some {
                assert(ner1->Some_0@[0] == ner0->Some_0@[i as int]);
            }
        }
        assert(one_srl == opt_at(srl0, i as int)) by {
            if srl0 is Some {
                assert(srl1->Some_0@[0] == srl0->Some_0@[i as int]);
            }
        }
        assert(one_dep == opt_at(dep0, i as int)) by {
            if dep0 is Some {
                assert(dep1->Some_0@[0] == dep0->Some_0@[i as int]);
            }
        }
        assert(one_sdp == opt_at(sdp0, i as int)) by {
            if sdp0 is Some {
                assert(sdp1->Some_0@[0] == sdp0->Some_0@[i as int]);
            }
        }
        assert(words@ =~= words0.subrange(i + 1, n as int));
        assert(opt_view(pos) == opt_rest(pos0, i + 1, n as int)) by {
            if pos0 is Some {
                assert(pos->Some_0@ =~= pos0->Some_0@.subrange(i + 1, n as int));
            }
        }
        assert(opt_view(ner) == opt_rest(ner0, i + 1, n as int)) by {
            if ner0 is Some {
                assert(ner->Some_0@ =~= ner0->Some_0@.subrange(i + 1, n as int));
            }
        }
        assert(opt_view(srl) == opt_rest(srl0, i + 1, n as int)) by {
            if srl0 is Some {
                assert(srl->Some_0@ =~= srl0->Some_0@.subrange(i + 1, n as int));
            }
        }
        assert(opt_view(dep) == opt_rest(dep0, i + 1, n as int)) by {
            if dep0 is Some {
                assert(dep->Some_0@ =~= dep0->Some_0@.subrange(i + 1, n as int));
            }
        }
        assert(opt_view(sdp) == opt_rest(sdp0, i + 1, n as int)) by {
            if sdp0 is Some {
                assert(sdp->Some_0@ =~= sdp0->Some_0@.subrange(i + 1, n as int));
            }
        }
        let one = LTPResult {
            seg: Some(seg_words),
            pos: one_pos,
            ner: one_ner,
            dep: one_dep,
            sdp: one_sdp,
            srl: one_srl,
        };
        assert(one == gather(words0, pos0, ner0, srl0, dep0, sdp0, i as int));
        results.push(one);
        i = i + 1;
    }
    Ok(results)
}

/// Whether output `k` of the scoring engine is an arc-score tensor (dep or sdp scores),
/// as opposed to a tensor of label ids.
pub fn output_is_score(vocab: &Vocab, k: usize) -> (r: bool)
    ensures
        r == ((vocab.dep is Some && k == dep_at(*vocab)) || (vocab.sdp is Some && k == sdp_at(*vocab))),
{
    let dep = 1 + count(vocab.pos.is_some(), 1) + count(vocab.ner.is_some(), 1) + count(vocab.srl.is_some(), 2);
    let sdp = dep + count(vocab.dep.is_some(), 2);
    (vocab.dep.is_some() && k == dep) || (vocab.sdp.is_some() && k == sdp)
}

/// In a decoded sentence every per-word field is as long as the word list: pos, ner, the
/// role lists and the dependency arcs each have one entry per word.
pub proof fn lemma_field_lengths(
    vocab: Vocab,
    texts: Seq<String>,
    offsets: Seq<Vec<(usize, usize)>>,
    lengths: Seq<usize>,
    outputs: Seq<Tensor>,
    i: int,
    r: LTPResult,
)
    requires
        0 <= i < texts.len(),
        sentence_ok(vocab, texts, offsets, lengths, outputs, i, r),
        r.seg->Some_0@.len() <= usize::MAX,
    ensures
        r.seg is Some,
        r.pos is Some ==> r.pos->Some_0@.len() == r.seg->Some_0@.len(),
        r.ner is Some ==> r.ner->Some_0@.len() == r.seg->Some_0@.len(),
        r.srl is Some ==> r.srl->Some_0@.len() == r.seg->Some_0@.len(),
        r.dep is Some ==> r.dep->Some_0@.len() == r.seg->Some_0@.len(),
{
    let seg = vocab.seg->Some_0@;
    let wn = word_counts(seg, outputs[0], lengths, texts.len() as int);
    let chunks = seg_chunks(seg, outputs[0], i, lengths[i] as int);
    assert(strings_view(r.seg->Some_0@).len() == r.seg->Some_0@.len());
    assert(wn[i] == chunks.len() as usize);
    if r.pos is Some {
        assert(strings_view(r.pos->Some_0@).len() == r.pos->Some_0@.len());
    }
    if r.ner is Some {
        assert(strings_view(r.ner->Some_0@).len() == r.ner->Some_0@.len());
    }
    if r.dep is Some {
        assert(r.dep->Some_0@.map_values(|d: DEP| dep_view(d)).len() == r.dep->Some_0@.len());
    }
}

/// Sentence `i` of batch `a` and sentence `j` of batch `b` carry the same data: text, token
/// spans and length; the rows of the label tensors for its tokens and words; the last labels
/// of its role sequences and the history entries that their padding shifts select; the
/// score and label blocks of its positions.
pub open spec fn same_sentence(
    vocab: Vocab,
    ta: Seq<String>,
    oa: Seq<Vec<(usize, usize)>>,
    la: Seq<usize>,
    outa: Seq<Tensor>,
    i: int,
    tb: Seq<String>,
    ob: Seq<Vec<(usize, usize)>>,
    lb: Seq<usize>,
    outb: Seq<Tensor>,
    j: int,
) -> bool {
    let seg = vocab.seg->Some_0@;
    let wa = word_counts(seg, outa[0], la, ta.len() as int);
    let wb = word_counts(seg, outb[0], lb, tb.len() as int);
    let w = wa[i] as int;
    &&& ta[i] == tb[j]
    &&& oa[i] == ob[j]
    &&& la[i] == lb[j]
    &&& forall|c: int| 0 <= c < la[i] ==> #[trigger] el2(outa[0], i, c) == el2(outb[0], j, c)
    &&& vocab.pos is Some ==> forall|c: int| 0 <= c < w ==> #[trigger] el2(outa[1], i, c) == el2(outb[1], j, c)
    &&& vocab.ner is Some ==> forall|c: int|
        0 <= c < w ==> #[trigger] el2(outa[ner_at(vocab)], i, c) == el2(outb[ner_at(vocab)], j, c)
    &&& vocab.srl is Some ==> {
        let k = srl_at(vocab);
        let labels_num = vocab.srl->Some_0@.len() as int;
        &&& forall|q: int|
            0 <= q < w ==> #[trigger] outa[k + 1].data@[first_seq(wa, i) + q] == outb[k + 1].data@[first_seq(wb, j) + q]
        &&& forall|q: int, p: int, y: int|
            0 <= q < w && 0 <= p < w - 1 && 0 <= y < labels_num ==> #[trigger] outa[k].data@[history_index(
                p + max_len(wa) - w,
                first_seq(wa, i) + q,
                y,
                total_len(wa),
                labels_num,
            )] == outb[k].data@[history_index(p + max_len(wb) - w, first_seq(wb, j) + q, y, total_len(wb), labels_num)]
    }
    &&& vocab.dep is Some ==> forall|d: int, h: int|
        0 <= d <= w && 0 <= h <= w ==> #[trigger] el3(outa[dep_at(vocab)], i, d, h) == el3(outb[dep_at(vocab)], j, d, h)
            && el3(outa[dep_at(vocab) + 1], i, d, h) == el3(outb[dep_at(vocab) + 1], j, d, h)
    &&& vocab.sdp is Some ==> forall|d: int, h: int|
        0 <= d <= w && 0 <= h <= w ==> #[trigger] el3(outa[sdp_at(vocab)], i, d, h) == el3(outb[sdp_at(vocab)], j, d, h)
            && el3(outa[sdp_at(vocab) + 1], i, d, h) == el3(outb[sdp_at(vocab) + 1], j, d, h)
}

proof fn lemma_trees_agree(ta: Tensor, wa: Seq<usize>, i: int, tb: Tensor, wb: Seq<usize>, j: int)
    requires
        arc_scores_ok(ta, wa),
        arc_scores_ok(tb, wb),
        0 <= i < wa.len(),
        0 <= j < wb.len(),
        wa[i] == wb[j],
        forall|d: int, h: int| 0 <= d <= wa[i] && 0 <= h <= wa[i] ==> #[trigger] el3(ta, i, d, h) == el3(tb, j, d, h),
    ensures
        tree_heads(ta, wa, i) == tree_heads(tb, wb, j),
{
    let ma = max_len(with_root(wa));
    let mb = max_len(with_root(wb));
    let n = wa[i] + 1;
    assert forall|h: int, d: int| 0 <= h < n && 0 <= d < n implies #[trigger] arc_score(ta.data@, i * (ma * ma), ma, h, d)
        == arc_score(tb.data@, j * (mb * mb), mb, h, d) by {
        assert(el3(ta, i, d, h) == el3(tb, j, d, h));
    }
    lemma_eisner_padding(ta.data@, i * (ma * ma), ma, tb.data@, j * (mb * mb), mb, n, 0);
}

proof fn lemma_sdp_rows_agree(
    vocab: Seq<String>,
    sa: Tensor,
    la: Tensor,
    wa: Seq<usize>,
    i: int,
    sb: Tensor,
    lb: Tensor,
    wb: Seq<usize>,
    j: int,
    upto: int,
)
    requires
        0 <= i < wa.len(),
        0 <= j < wb.len(),
        wa[i] == wb[j],
        tree_heads(sa, wa, i) == tree_heads(sb, wb, j),
        forall|d: int, h: int|
            0 <= d <= wa[i] && 0 <= h <= wa[i] ==> #[trigger] el3(sa, i, d, h) == el3(sb, j, d, h) && el3(la, i, d, h) == el3(
                lb,
                j,
                d,
                h,
            ),
        upto <= wa[i] + 1,
    ensures
        sdp_rows(vocab, sa, la, wa, i, upto) == sdp_rows(vocab, sb, lb, wb, j, upto),
    decreases upto,
{
    if upto > 1 {
        lemma_sdp_rows_agree(vocab, sa, la, wa, i, sb, lb, wb, j, upto - 1);
        lemma_sdp_row_agree(vocab, sa, la, wa, i, sb, lb, wb, j, upto - 1, wa[i] + 1);
    }
}

proof fn lemma_sdp_row_agree(
    vocab: Seq<String>,
    sa: Tensor,
    la: Tensor,
    wa: Seq<usize>,
    i: int,
    sb: Tensor,
    lb: Tensor,
    wb: Seq<usize>,
    j: int,
    cur: int,
    upto: int,
)
    requires
        0 <= i < wa.len(),
        0 <= j < wb.len(),
        wa[i] == wb[j],
        tree_heads(sa, wa, i) == tree_heads(sb, wb, j),
        forall|d: int, h: int|
            0 <= d <= wa[i] && 0 <= h <= wa[i] ==> #[trigger] el3(sa, i, d, h) == el3(sb, j, d, h) && el3(la, i, d, h) == el3(
                lb,
                j,
                d,
                h,
            ),
        0 <= cur <= wa[i],
        upto <= wa[i] + 1,
    ensures
        sdp_row(vocab, sa, la, wa, i, cur, upto) == sdp_row(vocab, sb, lb, wb, j, cur, upto),
    decreases upto,
{
    if upto > 0 {
        lemma_sdp_row_agree(vocab, sa, la, wa, i, sb, lb, wb, j, cur, upto - 1);
        assert(el3(sa, i, cur, upto - 1) == el3(sb, j, cur, upto - 1));
    }
}

/// A sentence decodes alike in any two batches that carry the same data for it, however
/// differently they are padded and wherever the sentence stands in them: in particular a
/// sentence alone decodes as it does inside a larger batch, and each result follows its own
/// sentence whatever the order.
pub proof fn lemma_sentence_padding(
    vocab: Vocab,
    ta: Seq<String>,
    oa: Seq<Vec<(usize, usize)>>,
    la: Seq<usize>,
    outa: Seq<Tensor>,
    i: int,
    tb: Seq<String>,
    ob: Seq<Vec<(usize, usize)>>,
    lb: Seq<usize>,
    outb: Seq<Tensor>,
    j: int,
    r: LTPResult,
)
    requires
        batch_ok(vocab, ta, oa, la, outa),
        batch_ok(vocab, tb, ob, lb, outb),
        0 <= i < ta.len(),
        0 <= j < tb.len(),
        same_sentence(vocab, ta, oa, la, outa, i, tb, ob, lb, outb, j),
    ensures
        sentence_ok(vocab, ta, oa, la, outa, i, r) == sentence_ok(vocab, tb, ob, lb, outb, j, r),
{
    let seg = vocab.seg->Some_0@;
    let wa = word_counts(seg, outa[0], la, ta.len() as int);
    let wb = word_counts(seg, outb[0], lb, tb.len() as int);
    assert(row_labels(seg, outa[0], i, la[i] as int) =~= row_labels(seg, outb[0], j, lb[j] as int));
    assert(wa[i] == wb[j]);
    let w = wa[i] as int;
    if vocab.pos is Some {
        assert(row_labels(vocab.pos->Some_0@, outa[1], i, w) =~= row_labels(vocab.pos->Some_0@, outb[1], j, w));
    }
    if vocab.ner is Some {
        assert(row_labels(vocab.ner->Some_0@, outa[ner_at(vocab)], i, w) =~= row_labels(
            vocab.ner->Some_0@,
            outb[ner_at(vocab)],
            j,
            w,
        ));
    }
    if vocab.srl is Some {
        let v = vocab.srl->Some_0@;
        let k = srl_at(vocab);
        let labels_num = v.len() as int;
        let ha = outa[k].data@;
        let hb = outb[k].data@;
        assert forall|q: int| 0 <= q < w implies #[trigger] srl_labels(v, ha, outa[k + 1].data@, wa, i, q) == srl_labels(
            v,
            hb,
            outb[k + 1].data@,
            wb,
            j,
            q,
        ) by {
            let ka = first_seq(wa, i) + q;
            let kb = first_seq(wb, j) + q;
            lemma_prefix_total(wa, i);
            lemma_max_bounds(wa);
            let mx = max_len(wa);
            let tot = total_len(wa);
            let lim = first_seq(wa, i) + w;
            if w >= 2 {
                assert(wa[i] >= 2);
                assert(history_index(mx - 2, ka + 1, 0, tot, labels_num) <= history_index(mx - 2, lim, 0, tot, labels_num))
                    by (nonlinear_arith)
                    requires ka + 1 <= lim, labels_num >= 0;
            }
            assert(outa[k + 1].data@[ka] == outb[k + 1].data@[kb]);
            assert forall|p: int, y: int| 0 <= p < w - 1 && 0 <= y < labels_num implies #[trigger] ha[history_index(p + mx - w, ka, y, tot, labels_num)]
                == hb[history_index(p + max_len(wb) - w, kb, y, total_len(wb), labels_num)] by {
            }
            lemma_path_padding(ha, ka, mx, tot, hb, kb, max_len(wb), total_len(wb), outa[k + 1].data@[ka], w, labels_num);
        }
    }
    if vocab.dep is Some {
        let v = vocab.dep->Some_0@;
        let sa = outa[dep_at(vocab)];
        let sb = outb[dep_at(vocab)];
        let lab_a = outa[dep_at(vocab) + 1];
        let lab_b = outb[dep_at(vocab) + 1];
        lemma_trees_agree(sa, wa, i, sb, wb, j);
        lemma_tree_heads(sa, wa, i);
        assert forall|k: int| 0 <= k < w implies #[trigger] dep_edges(v, sa, lab_a, wa, i)[k] == dep_edges(v, sb, lab_b, wb, j)[k] by {
            let head = tree_heads(sa, wa, i)[k + 1] as int;
            assert(el3(sa, i, k + 1, head) == el3(sb, j, k + 1, head));
        }
        assert(dep_edges(v, sa, lab_a, wa, i) =~= dep_edges(v, sb, lab_b, wb, j));
    }
    if vocab.sdp is Some {
        let v = vocab.sdp->Some_0@;
        let sa = outa[sdp_at(vocab)];
        let sb = outb[sdp_at(vocab)];
        lemma_trees_agree(sa, wa, i, sb, wb, j);
        lemma_sdp_rows_agree(v, sa, outa[sdp_at(vocab) + 1], wa, i, sb, outb[sdp_at(vocab) + 1], wb, j, w + 1);
    }
}

} // verus!

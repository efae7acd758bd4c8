use vstd::prelude::*;

use crate::batch::{first_seq, lemma_first_seq_mono, lemma_max_bounds, lemma_prefix_total, max_len, total_len};

verus! {

/// Flat index into the history tensor, row-major over (search step, sequence, label): one
/// step's row holds `n_seqs * labels_num` entries.
pub open spec fn history_index(step: int, seq_idx: int, label: int, n_seqs: int, labels_num: int) -> int {
    step * (n_seqs * labels_num) + seq_idx * labels_num + label
}

/// The label at position `p` of sequence `seq_idx`, whose length is `n` in a batch of
/// `n_seqs` sequences padded to `max_n`: the last label is given, each earlier one is read
/// from the history at the step shifted right by the padding `max_n - n`.
pub open spec fn label_at(
    history: Seq<i64>,
    last: i64,
    seq_idx: int,
    n: int,
    max_n: int,
    n_seqs: int,
    labels_num: int,
    p: int,
) -> i64
    decreases n - 1 - p,
{
    if p >= n - 1 {
        last
    } else {
        let next = label_at(history, last, seq_idx, n, max_n, n_seqs, labels_num, p + 1);
        history[history_index(p + max_n - n, seq_idx, next as int, n_seqs, labels_num)]
    }
}

/// The decoded path of sequence `seq_idx` of length `n`.
pub open spec fn path(history: Seq<i64>, last: i64, seq_idx: int, n: int, max_n: int, n_seqs: int, labels_num: int) -> Seq<i64> {
    Seq::new(n as nat, |p: int| label_at(history, last, seq_idx, n, max_n, n_seqs, labels_num, p))
}

/// Every label of `v` is a label index below `labels_num`.
pub open spec fn valid_labels(v: Seq<i64>, labels_num: int) -> bool {
    forall|i: int| 0 <= i < v.len() ==> 0 <= #[trigger] v[i] < labels_num
}

/// What the decoding owes to its inputs: every label is below `labels_num`, each sequence
/// has its last label, a history row fits a `usize`, and the history holds every entry that
/// the backtrace reads. Sentence `s` (when it has two words or more) reads at most up to the
/// last label of its last sequence at step `max_n - 2`.
pub open spec fn history_fits(history: Seq<i64>, last_tags: Seq<i64>, lens: Seq<usize>, labels_num: int) -> bool {
    &&& valid_labels(history, labels_num)
    &&& valid_labels(last_tags, labels_num)
    &&& last_tags.len() >= total_len(lens)
    &&& total_len(lens) * labels_num <= usize::MAX
    &&& forall|s: int|
        0 <= s < lens.len() && #[trigger] lens[s] >= 2 ==> history.len() >= history_index(
            max_len(lens) - 2,
            first_seq(lens, s) + lens[s],
            0,
            total_len(lens),
            labels_num,
        )
}

/// Backtraces one sequence from its last label.
fn backtrace_one(
    history: &[i64],
    last: i64,
    seq_idx: usize,
    n: usize,
    max_n: usize,
    n_seqs: usize,
    labels_num: usize,
) -> (r: Vec<i64>)
    requires
        1 <= n <= max_n,
        0 <= last < labels_num,
        valid_labels(history@, labels_num as int),
        n_seqs * labels_num <= usize::MAX,
        n >= 2 ==> history@.len() >= history_index(max_n - 2, seq_idx + 1, 0, n_seqs as int, labels_num as int),
    ensures
        r@ == path(history@, last, seq_idx as int, n as int, max_n as int, n_seqs as int, labels_num as int),
{
    let ghost h = history@;
    let mut tags: Vec<i64> = vec![last; n];
    let bias = max_n - n;
    let stride = n_seqs * labels_num;
    let mut p: usize = n - 1;
    let hl = history.len();
    while p > 0
        invariant
            hl == h.len(),
            1 <= n <= max_n,
            bias == max_n - n,
            stride == n_seqs * labels_num,
            p < n,
            tags@.len() == n,
            h == history@,
            valid_labels(h, labels_num as int),
            n >= 2 ==> h.len() >= history_index(max_n - 2, seq_idx + 1, 0, n_seqs as int, labels_num as int),
            forall|k: int| p <= k < n ==> #[trigger] tags@[k] == label_at(h, last, seq_idx as int, n as int, max_n as int, n_seqs as int, labels_num as int, k),
            forall|k: int| p <= k < n ==> 0 <= #[trigger] tags@[k] < labels_num,
        decreases p,
    {
        let step = p - 1 + bias;
        let forward_best = tags[p];
        assert(0 <= forward_best < labels_num);
        assert(step <= max_n - 2);
        assert(step * stride <= (max_n - 2) * stride) by (nonlinear_arith)
            requires step <= max_n - 2;
        assert(0 <= step * stride) by (nonlinear_arith);
        assert(seq_idx * labels_num + forward_best < (seq_idx + 1) * labels_num) by (nonlinear_arith)
            requires forward_best < labels_num;
        assert(0 <= seq_idx * labels_num) by (nonlinear_arith);
        let index = step * stride + seq_idx * labels_num + forward_best as usize;
        let prev = history[index];
        tags.set(p - 1, prev);
        p = p - 1;
    }
    assert(tags@ =~= path(h, last, seq_idx as int, n as int, max_n as int, n_seqs as int, labels_num as int));
    tags
}

/// Reconstructs the best label path of every sequence from the backpointer history.
/// Sentence `s` of length `n` holds `n` sequences of length `n`, numbered on from the
/// sequences of the sentences before it; the result lists all sequences in that order.
pub fn viterbi_decode_postprocess(
    history: &[i64],
    last_tags: &[i64],
    stn_lengths: &[usize],
    labels_num: usize,
) -> (r: Vec<Vec<i64>>)
    requires
        history_fits(history@, last_tags@, stn_lengths@, labels_num as int),
    ensures
        r@.len() == total_len(stn_lengths@),
        forall|s: int, q: int|
            0 <= s < stn_lengths@.len() && 0 <= q < stn_lengths@[s] ==> #[trigger] r@[first_seq(stn_lengths@, s) + q]@
                == path(
                history@,
                last_tags@[first_seq(stn_lengths@, s) + q],
                first_seq(stn_lengths@, s) + q,
                stn_lengths@[s] as int,
                max_len(stn_lengths@),
                total_len(stn_lengths@),
                labels_num as int,
            ),
{
    let ghost lens = stn_lengths@;
    let ghost h = history@;
    let ghost tot = total_len(lens);
    proof {
        lemma_max_bounds(lens);
    }
    let mut max_n: usize = 0;
    let mut total: usize = 0;
    let mut k: usize = 0;
    while k < stn_lengths.len()
        invariant
            lens == stn_lengths@,
            k <= lens.len(),
            max_n as int == max_len(lens.subrange(0, k as int)),
            total as int == first_seq(lens, k as int),
            tot == total_len(lens),
            tot <= last_tags@.len(),
            last_tags@.len() == last_tags.len(),
        decreases lens.len() - k,
    {
        assert(lens.subrange(0, k + 1).drop_last() =~= lens.subrange(0, k as int));
        proof {
            lemma_prefix_total(lens, k as int);
        }
        if stn_lengths[k] > max_n {
            max_n = stn_lengths[k];
        }
        total = total + stn_lengths[k];
        k = k + 1;
    }
    assert(lens.subrange(0, k as int) =~= lens);
    assert(total == tot);

    let mut result: Vec<Vec<i64>> = Vec::new();
    let mut stn_idx: usize = 0;
    let mut s: usize = 0;
    assert(lens.subrange(0, 0) =~= Seq::<usize>::empty());
    while s < stn_lengths.len()
        invariant
            lens == stn_lengths@,
            h == history@,
            history_fits(h, last_tags@, lens, labels_num as int),
            max_n as int == max_len(lens),
            total as int == tot,
            tot == total_len(lens),
            s <= lens.len(),
            stn_idx as int == first_seq(lens, s as int),
            result@.len() == stn_idx,
            forall|s2: int, q: int|
                0 <= s2 < s && 0 <= q < lens[s2] ==> #[trigger] result@[first_seq(lens, s2) + q]@
                    == path(h, last_tags@[first_seq(lens, s2) + q], first_seq(lens, s2) + q, lens[s2] as int, max_n as int, tot, labels_num as int),
        decreases lens.len() - s,
    {
        let n = stn_lengths[s];
        proof {
            lemma_prefix_total(lens, s as int);
            lemma_max_bounds(lens);
        }
        assert forall|s2: int| 0 <= s2 < s implies #[trigger] first_seq(lens, s2) + lens[s2] <= first_seq(lens, s as int) by {
            lemma_prefix_total(lens, s2);
            lemma_first_seq_mono(lens, s2 + 1, s as int);
        }
        let mut q: usize = 0;
        while q < n
            invariant
                forall|s2: int| 0 <= s2 < s ==> #[trigger] first_seq(lens, s2) + lens[s2] <= first_seq(lens, s as int),
                lens == stn_lengths@,
                h == history@,
                history_fits(h, last_tags@, lens, labels_num as int),
                max_n as int == max_len(lens),
                total as int == tot,
                tot == total_len(lens),
                s < lens.len(),
                n == lens[s as int],
                n <= max_n,
                first_seq(lens, s as int + 1) == first_seq(lens, s as int) + n,
                first_seq(lens, s as int + 1) <= tot,
                first_seq(lens, s as int) >= 0,
                q <= n,
                stn_idx as int == first_seq(lens, s as int) + q,
                result@.len() == stn_idx,
                forall|s2: int, q2: int|
                    0 <= s2 < s && 0 <= q2 < lens[s2] ==> #[trigger] result@[first_seq(lens, s2) + q2]@
                        == path(h, last_tags@[first_seq(lens, s2) + q2], first_seq(lens, s2) + q2, lens[s2] as int, max_n as int, tot, labels_num as int),
                forall|q2: int|
                    0 <= q2 < q ==> #[trigger] result@[first_seq(lens, s as int) + q2]@
                        == path(h, last_tags@[first_seq(lens, s as int) + q2], first_seq(lens, s as int) + q2, n as int, max_n as int, tot, labels_num as int),
            decreases n - q,
        {
            proof {
                let lim = first_seq(lens, s as int) + n;
                if n >= 2 {
                    assert(lens[s as int] >= 2);
                    assert(history_index(max_n - 2, stn_idx + 1, 0, tot, labels_num as int)
                        <= history_index(max_n - 2, lim, 0, tot, labels_num as int)) by (nonlinear_arith)
                        requires stn_idx + 1 <= lim, labels_num >= 0;
                }
            }
            let one = backtrace_one(history, last_tags[stn_idx], stn_idx, n, max_n, total, labels_num);
            let ghost before = result@;
            result.push(one);
            assert(result@ == before.push(one));
            assert forall|s2: int, q2: int|
                0 <= s2 < s && 0 <= q2 < lens[s2] implies #[trigger] result@[first_seq(lens, s2) + q2]@
                    == path(h, last_tags@[first_seq(lens, s2) + q2], first_seq(lens, s2) + q2, lens[s2] as int, max_n as int, tot, labels_num as int) by {
                lemma_prefix_total(lens, s2);
                assert(first_seq(lens, s2) + lens[s2] <= first_seq(lens, s as int));
                assert(result@[first_seq(lens, s2) + q2] == before[first_seq(lens, s2) + q2]);
            }
            assert forall|q2: int|
                0 <= q2 < q + 1 implies #[trigger] result@[first_seq(lens, s as int) + q2]@
                    == path(h, last_tags@[first_seq(lens, s as int) + q2], first_seq(lens, s as int) + q2, n as int, max_n as int, tot, labels_num as int) by {
                if q2 < q {
                    assert(result@[first_seq(lens, s as int) + q2] == before[first_seq(lens, s as int) + q2]);
                }
            }
            stn_idx = stn_idx + 1;
            q = q + 1;
        }
        s = s + 1;
        assert forall|s2: int, q2: int|
            0 <= s2 < s && 0 <= q2 < lens[s2] implies #[trigger] result@[first_seq(lens, s2) + q2]@
                == path(h, last_tags@[first_seq(lens, s2) + q2], first_seq(lens, s2) + q2, lens[s2] as int, max_n as int, tot, labels_num as int) by {
            lemma_prefix_total(lens, s2);
            if s2 == s - 1 {
                assert(result@[first_seq(lens, s2) + q2]@ == path(h, last_tags@[first_seq(lens, s2) + q2], first_seq(lens, s2) + q2, n as int, max_n as int, tot, labels_num as int));
            }
        }
    }
    assert(lens.subrange(0, s as int) =~= lens);
    result
}

/// A sequence of length one decodes to its last label alone, and every decoded path is as
/// long as its sequence.
pub proof fn lemma_path_shape(history: Seq<i64>, last: i64, seq_idx: int, n: int, max_n: int, n_seqs: int, labels_num: int)
    requires
        0 <= n,
    ensures
        path(history, last, seq_idx, n, max_n, n_seqs, labels_num).len() == n,
        n == 1 ==> path(history, last, seq_idx, n, max_n, n_seqs, labels_num) == seq![last],
{
    if n == 1 {
        assert(path(history, last, seq_idx, n, max_n, n_seqs, labels_num) =~= seq![last]);
    }
}

/// Every label of a decoded path is a label of the vocabulary.
pub proof fn lemma_path_labels(
    history: Seq<i64>,
    last: i64,
    seq_idx: int,
    n: int,
    max_n: int,
    n_seqs: int,
    labels_num: int,
    p: int,
)
    requires
        valid_labels(history, labels_num),
        0 <= last < labels_num,
        0 <= p,
        n >= 2 ==> history.len() >= history_index(max_n - 2, seq_idx + 1, 0, n_seqs, labels_num),
        0 <= seq_idx,
        0 <= n_seqs,
        1 <= n <= max_n,
        0 <= labels_num,
    ensures
        0 <= label_at(history, last, seq_idx, n, max_n, n_seqs, labels_num, p) < labels_num,
    decreases n - 1 - p,
{
    if p < n - 1 {
        lemma_path_labels(history, last, seq_idx, n, max_n, n_seqs, labels_num, p + 1);
        let next = label_at(history, last, seq_idx, n, max_n, n_seqs, labels_num, p + 1);
        let step = p + max_n - n;
        let stride = n_seqs * labels_num;
        assert(0 <= stride) by (nonlinear_arith)
            requires 0 <= n_seqs, 0 <= labels_num, stride == n_seqs * labels_num;
        assert(step * stride <= (max_n - 2) * stride) by (nonlinear_arith)
            requires step <= max_n - 2, 0 <= step, 0 <= stride;
        assert(0 <= step * stride) by (nonlinear_arith)
            requires 0 <= step, 0 <= stride;
        assert(seq_idx * labels_num + next < (seq_idx + 1) * labels_num) by (nonlinear_arith)
            requires next < labels_num;
        assert(0 <= seq_idx * labels_num) by (nonlinear_arith)
            requires 0 <= seq_idx, 0 <= labels_num;
    }
}

fn labels_valid(v: &[i64], labels_num: usize) -> (r: bool)
    ensures
        r == valid_labels(v@, labels_num as int),
{
    let mut k: usize = 0;
    while k < v.len()
        invariant
            k <= v@.len(),
            forall|q: int| 0 <= q < k ==> 0 <= #[trigger] v@[q] < labels_num,
        decreases v@.len() - k,
    {
        if v[k] < 0 || v[k] as u64 >= labels_num as u64 {
            return false;
        }
        k = k + 1;
    }
    true
}

/// Tells whether the history, the last labels and the lengths fit together.
pub fn history_fits_check(history: &[i64], last_tags: &[i64], stn_lengths: &[usize], labels_num: usize) -> (r: bool)
    ensures
        r == history_fits(history@, last_tags@, stn_lengths@, labels_num as int),
{
    let ghost lens = stn_lengths@;
    if !labels_valid(history, labels_num) || !labels_valid(last_tags, labels_num) {
        return false;
    }
    proof {
        lemma_max_bounds(lens);
    }
    let limit = last_tags.len();
    let mut total: usize = 0;
    let mut max_n: usize = 0;
    let mut k: usize = 0;
    while k < stn_lengths.len()
        invariant
            lens == stn_lengths@,
            k <= lens.len(),
            total as int == first_seq(lens, k as int),
            max_n as int == max_len(lens.subrange(0, k as int)),
            total <= limit,
            limit == last_tags@.len(),
        decreases lens.len() - k,
    {
        assert(lens.subrange(0, k + 1).drop_last() =~= lens.subrange(0, k as int));
        proof {
            lemma_prefix_total(lens, k as int);
        }
        if stn_lengths[k] > limit - total {
            proof {
                lemma_first_seq_mono(lens, k as int + 1, lens.len() as int);
                assert(lens.subrange(0, lens.len() as int) =~= lens);
            }
            return false;
        }
        total = total + stn_lengths[k];
        if stn_lengths[k] > max_n {
            max_n = stn_lengths[k];
        }
        k = k + 1;
    }
    assert(lens.subrange(0, k as int) =~= lens);
    let stride = match total.checked_mul(labels_num) {
        None => {
            return false;
        },
        Some(x) => x,
    };
    let hl = history.len();
    let ghost tot = total as int;
    let mut off: usize = 0;
    let mut s: usize = 0;
    while s < stn_lengths.len()
        invariant
            lens == stn_lengths@,
            s <= lens.len(),
            off as int == first_seq(lens, s as int),
            off <= total,
            tot == total_len(lens),
            total as int == tot,
            max_n as int == max_len(lens),
            stride == total * labels_num,
            hl == history@.len(),
            forall|s2: int|
                0 <= s2 < s && #[trigger] lens[s2] >= 2 ==> hl >= history_index(
                    max_n - 2,
                    first_seq(lens, s2) + lens[s2],
                    0,
                    tot,
                    labels_num as int,
                ),
        decreases lens.len() - s,
    {
        let n = stn_lengths[s];
        proof {
            lemma_max_bounds(lens);
            lemma_prefix_total(lens, s as int);
            assert(lens.subrange(0, lens.len() as int) =~= lens);
            lemma_first_seq_mono(lens, s as int + 1, lens.len() as int);
        }
        if n >= 2 {
            let ghost need = history_index(max_n - 2, off + n, 0, tot, labels_num as int);
            assert(n <= max_n);
            assert(need == (max_n - 2) * stride + (off + n) * labels_num);
            assert(0 <= (max_n - 2) * stride) by (nonlinear_arith)
                requires max_n >= 2;
            assert(0 <= (off + n) * labels_num) by (nonlinear_arith);
            assert((off + n) * labels_num <= stride) by (nonlinear_arith)
                requires off + n <= total, stride == total * labels_num;
            let steps = match (max_n - 2).checked_mul(stride) {
                None => {
                    return false;
                },
                Some(y) => y,
            };
            let seqs = (off + n) * labels_num;
            match steps.checked_add(seqs) {
                None => {
                    return false;
                },
                Some(sum) => {
                    if sum > hl {
                        return false;
                    }
                },
            }
        }
        off = off + n;
        s = s + 1;
    }
    true
}

/// A sequence's decoded path depends only on its own history entries: two batches padded
/// to different widths, where the sequence has different numbers, decode it alike when the
/// entries that its padding shift selects agree.
pub proof fn lemma_path_padding(
    h1: Seq<i64>,
    k1: int,
    max1: int,
    q1: int,
    h2: Seq<i64>,
    k2: int,
    max2: int,
    q2: int,
    last: i64,
    n: int,
    labels_num: int,
)
    requires
        forall|p: int, y: int|
            0 <= p < n - 1 && 0 <= y < labels_num ==> #[trigger] h1[history_index(p + max1 - n, k1, y, q1, labels_num)]
                == h2[history_index(p + max2 - n, k2, y, q2, labels_num)],
        valid_labels(h1, labels_num),
        n >= 2 ==> h1.len() >= history_index(max1 - 2, k1 + 1, 0, q1, labels_num),
        0 <= k1,
        0 <= q1,
        1 <= n <= max1,
        0 <= last < labels_num,
    ensures
        path(h1, last, k1, n, max1, q1, labels_num) == path(h2, last, k2, n, max2, q2, labels_num),
{
    assert forall|p: int| 0 <= p < n implies #[trigger] label_at(h1, last, k1, n, max1, q1, labels_num, p) == label_at(
        h2,
        last,
        k2,
        n,
        max2,
        q2,
        labels_num,
        p,
    ) by {
        lemma_label_at_padding(h1, k1, max1, q1, h2, k2, max2, q2, last, n, labels_num, p);
    }
    assert(path(h1, last, k1, n, max1, q1, labels_num) =~= path(h2, last, k2, n, max2, q2, labels_num));
}

proof fn lemma_label_at_padding(
    h1: Seq<i64>,
    k1: int,
    max1: int,
    q1: int,
    h2: Seq<i64>,
    k2: int,
    max2: int,
    q2: int,
    last: i64,
    n: int,
    labels_num: int,
    p: int,
)
    requires
        forall|r: int, y: int|
            0 <= r < n - 1 && 0 <= y < labels_num ==> #[trigger] h1[history_index(r + max1 - n, k1, y, q1, labels_num)]
                == h2[history_index(r + max2 - n, k2, y, q2, labels_num)],
        valid_labels(h1, labels_num),
        n >= 2 ==> h1.len() >= history_index(max1 - 2, k1 + 1, 0, q1, labels_num),
        0 <= k1,
        0 <= q1,
        1 <= n <= max1,
        0 <= last < labels_num,
        0 <= p,
    ensures
        label_at(h1, last, k1, n, max1, q1, labels_num, p) == label_at(h2, last, k2, n, max2, q2, labels_num, p),
    decreases n - 1 - p,
{
    if p < n - 1 {
        lemma_label_at_padding(h1, k1, max1, q1, h2, k2, max2, q2, last, n, labels_num, p + 1);
        lemma_path_labels(h1, last, k1, n, max1, q1, labels_num, p + 1);
    }
}

} // verus!

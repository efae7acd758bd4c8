use vstd::prelude::*;

use crate::viterbi::{history_index, label_at, path};

verus! {

/// Best score of a label sequence over positions `0..=t` that ends in label `y`, under
/// emission scores `e(t, y)` and transition scores `tr(y', y)`, with `k` labels.
pub open spec fn delta(e: spec_fn(int, int) -> int, tr: spec_fn(int, int) -> int, k: int, t: int, y: int) -> int
    decreases t, 1int, 0int,
{
    if t <= 0 {
        e(0, y)
    } else {
        best_prev(e, tr, k, t, y, k).0 + e(t, y)
    }
}

/// Among predecessor labels `0..upto`, the highest `delta(t - 1, y') + tr(y', y)` and the
/// first label that reaches it.
pub open spec fn best_prev(e: spec_fn(int, int) -> int, tr: spec_fn(int, int) -> int, k: int, t: int, y: int, upto: int) -> (int, int)
    decreases t, 0int, upto,
{
    if t <= 0 {
        (0, 0)
    } else if upto <= 1 {
        (delta(e, tr, k, t - 1, 0) + tr(0, y), 0)
    } else {
        let prev = best_prev(e, tr, k, t, y, upto - 1);
        let c = delta(e, tr, k, t - 1, upto - 1) + tr(upto - 1, y);
        if c > prev.0 {
            (c, upto - 1)
        } else {
            prev
        }
    }
}

/// Score of the labels `p[0..=t]`.
pub open spec fn prefix_score(e: spec_fn(int, int) -> int, tr: spec_fn(int, int) -> int, p: Seq<int>, t: int) -> int
    decreases t,
{
    if t <= 0 {
        e(0, p[0])
    } else {
        prefix_score(e, tr, p, t - 1) + tr(p[t - 1], p[t]) + e(t, p[t])
    }
}

/// The history holds, for sequence `seq_idx` of length `n`, the forward pass's backpointers:
/// the entry for position `t` and label `y` is the best predecessor of `y` at `t`.
pub open spec fn forward_history(
    h: Seq<i64>,
    seq_idx: int,
    n: int,
    max_n: int,
    n_seqs: int,
    k: int,
    e: spec_fn(int, int) -> int,
    tr: spec_fn(int, int) -> int,
) -> bool {
    forall|t: int, y: int|
        1 <= t < n && 0 <= y < k ==> #[trigger] h[history_index(t - 1 + max_n - n, seq_idx, y, n_seqs, k)] as int
            == best_prev(e, tr, k, t, y, k).1
}

proof fn lemma_best_prev(e: spec_fn(int, int) -> int, tr: spec_fn(int, int) -> int, k: int, t: int, y: int, upto: int)
    requires
        t >= 1,
        upto >= 1,
    ensures
        0 <= best_prev(e, tr, k, t, y, upto).1 < upto,
        best_prev(e, tr, k, t, y, upto).0 == delta(e, tr, k, t - 1, best_prev(e, tr, k, t, y, upto).1) + tr(
            best_prev(e, tr, k, t, y, upto).1,
            y,
        ),
        forall|q: int| 0 <= q < upto ==> #[trigger] delta(e, tr, k, t - 1, q) + tr(q, y) <= best_prev(e, tr, k, t, y, upto).0,
    decreases upto,
{
    if upto > 1 {
        lemma_best_prev(e, tr, k, t, y, upto - 1);
        let prev = best_prev(e, tr, k, t, y, upto - 1);
        assert forall|q: int| 0 <= q < upto implies #[trigger] delta(e, tr, k, t - 1, q) + tr(q, y) <= best_prev(e, tr, k, t, y, upto).0 by {
            if q < upto - 1 {
                assert(delta(e, tr, k, t - 1, q) + tr(q, y) <= prev.0);
            }
        }
    }
}

proof fn lemma_path_follows_backpointers(
    h: Seq<i64>,
    last: i64,
    seq_idx: int,
    n: int,
    max_n: int,
    n_seqs: int,
    k: int,
    e: spec_fn(int, int) -> int,
    tr: spec_fn(int, int) -> int,
    p: int,
)
    requires
        forward_history(h, seq_idx, n, max_n, n_seqs, k, e, tr),
        0 <= last < k,
        0 <= p < n,
    ensures
        0 <= label_at(h, last, seq_idx, n, max_n, n_seqs, k, p) < k,
        p < n - 1 ==> label_at(h, last, seq_idx, n, max_n, n_seqs, k, p) as int == best_prev(
            e,
            tr,
            k,
            p + 1,
            label_at(h, last, seq_idx, n, max_n, n_seqs, k, p + 1) as int,
            k,
        ).1,
    decreases n - 1 - p,
{
    if p < n - 1 {
        lemma_path_follows_backpointers(h, last, seq_idx, n, max_n, n_seqs, k, e, tr, p + 1);
        let next = label_at(h, last, seq_idx, n, max_n, n_seqs, k, p + 1) as int;
        assert(h[history_index(p + 1 - 1 + max_n - n, seq_idx, next, n_seqs, k)] as int == best_prev(e, tr, k, p + 1, next, k).1);
        assert(p + 1 - 1 + max_n - n == p + max_n - n);
        lemma_best_prev(e, tr, k, p + 1, next, k);
    }
}

proof fn lemma_prefix_exact(e: spec_fn(int, int) -> int, tr: spec_fn(int, int) -> int, k: int, p: Seq<int>, t: int)
    requires
        k >= 1,
        0 <= t < p.len(),
        forall|s: int| 1 <= s < p.len() ==> #[trigger] p[s - 1] == best_prev(e, tr, k, s, p[s], k).1,
    ensures
        prefix_score(e, tr, p, t) == delta(e, tr, k, t, p[t]),
    decreases t,
{
    if t > 0 {
        lemma_prefix_exact(e, tr, k, p, t - 1);
        lemma_best_prev(e, tr, k, t, p[t], k);
        assert(p[t - 1] == best_prev(e, tr, k, t, p[t], k).1);
    }
}

proof fn lemma_prefix_bound(e: spec_fn(int, int) -> int, tr: spec_fn(int, int) -> int, k: int, q: Seq<int>, t: int)
    requires
        k >= 1,
        0 <= t < q.len(),
        forall|s: int| 0 <= s < q.len() ==> 0 <= #[trigger] q[s] < k,
    ensures
        prefix_score(e, tr, q, t) <= delta(e, tr, k, t, q[t]),
    decreases t,
{
    if t > 0 {
        lemma_prefix_bound(e, tr, k, q, t - 1);
        lemma_best_prev(e, tr, k, t, q[t], k);
        let y0 = q[t - 1];
        assert(delta(e, tr, k, t - 1, y0) + tr(y0, q[t]) <= best_prev(e, tr, k, t, q[t], k).0);
    }
}

/// The backtrace agrees with a forward Viterbi run: when the history holds the forward
/// pass's first-maximum backpointers for a sequence and its last label scores best at the
/// last position, the decoded path scores exactly that best score, and no label sequence of
/// the same length scores more.
pub proof fn lemma_backtrace_is_best(
    h: Seq<i64>,
    last: i64,
    seq_idx: int,
    n: int,
    max_n: int,
    n_seqs: int,
    k: int,
    e: spec_fn(int, int) -> int,
    tr: spec_fn(int, int) -> int,
    other: Seq<int>,
)
    requires
        1 <= n,
        1 <= k,
        forward_history(h, seq_idx, n, max_n, n_seqs, k, e, tr),
        0 <= last < k,
        forall|y: int| 0 <= y < k ==> #[trigger] delta(e, tr, k, n - 1, y) <= delta(e, tr, k, n - 1, last as int),
        other.len() == n,
        forall|s: int| 0 <= s < n ==> 0 <= #[trigger] other[s] < k,
    ensures
        prefix_score(e, tr, path(h, last, seq_idx, n, max_n, n_seqs, k).map_values(|x: i64| x as int), n - 1)
            == delta(e, tr, k, n - 1, last as int),
        prefix_score(e, tr, other, n - 1) <= prefix_score(
            e,
            tr,
            path(h, last, seq_idx, n, max_n, n_seqs, k).map_values(|x: i64| x as int),
            n - 1,
        ),
{
    let pv = path(h, last, seq_idx, n, max_n, n_seqs, k).map_values(|x: i64| x as int);
    assert forall|s: int| 1 <= s < pv.len() implies #[trigger] pv[s - 1] == best_prev(e, tr, k, s, pv[s], k).1 by {
        lemma_path_follows_backpointers(h, last, seq_idx, n, max_n, n_seqs, k, e, tr, s - 1);
    }
    lemma_prefix_exact(e, tr, k, pv, n - 1);
    assert(pv[n - 1] == last as int);
    lemma_prefix_bound(e, tr, k, other, n - 1);
}

} // verus!

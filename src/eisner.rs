use vstd::prelude::*;

use crate::batch::{lemma_max_at_most, lemma_max_bounds, max_len};

verus! {

/// Bound on the magnitude of one arc score (scores are fixed-point integers).
pub const SCORE_LIMIT: i64 = 1099511627776;

/// Bound on the length of one sentence, root included.
pub const MAX_SENTENCE: usize = 1048576;

/// The score of the arc from head `h` to dependent `d` in the block at `base`, whose rows
/// (one per dependent) are `m` wide.
pub open spec fn arc_score(s: Seq<i64>, base: int, m: int, h: int, d: int) -> int {
    s[base + d * m + h] as int
}

/// Sum of two scores, where `None` stands for minus infinity.
pub open spec fn add_opt(x: Option<int>, y: Option<int>) -> Option<int> {
    match (x, y) {
        (Some(a), Some(b)) => Some(a + b),
        _ => None,
    }
}

/// `x` is strictly better than `y`.
pub open spec fn beats(x: Option<int>, y: Option<int>) -> bool {
    match (x, y) {
        (Some(a), Some(b)) => a > b,
        (Some(_), None) => true,
        _ => false,
    }
}

/// Best of the split points `lo(h, d) <= r < k` for the incomplete span with head `h` and
/// dependent `d`, and the first split that reaches it (the first split point when no
/// candidate is finite).
pub open spec fn inc_fold(s: Seq<i64>, base: int, m: int, h: int, d: int, k: int) -> (Option<int>, int)
    decreases dist(h, d), 0int, k - lo(h, d),
{
    let a = lo(h, d);
    let b = hi(h, d);
    if k <= a || b < k {
        (None, a)
    } else {
        let prev = inc_fold(s, base, m, h, d, k - 1);
        let r = k - 1;
        let v = add_opt(
            add_opt(comp_val(s, base, m, a, r), comp_val(s, base, m, b, r + 1)),
            Some(arc_score(s, base, m, h, d)),
        );
        if beats(v, prev.0) {
            (v, r)
        } else {
            prev
        }
    }
}

/// First split point of the complete span from head `h` to end `e`.
pub open spec fn comp_first(h: int, e: int) -> int {
    if h < e { h + 1 } else { e }
}

/// One past the last split point of the complete span from head `h` to end `e`.
pub open spec fn comp_last(h: int, e: int) -> int {
    if h < e { e + 1 } else { h }
}

/// Best of the split points `comp_first(h, e) <= r < k` for the complete span from head `h`
/// to end `e`, and the first split that reaches it (the first split point when no candidate
/// is finite).
pub open spec fn comp_fold(s: Seq<i64>, base: int, m: int, h: int, e: int, k: int) -> (Option<int>, int)
    decreases dist(h, e), 2int, k - comp_first(h, e),
{
    if k <= comp_first(h, e) || comp_last(h, e) < k {
        (None, comp_first(h, e))
    } else {
        let prev = comp_fold(s, base, m, h, e, k - 1);
        let r = k - 1;
        let v = add_opt(inc_val(s, base, m, h, r), comp_val(s, base, m, r, e));
        if beats(v, prev.0) {
            (v, r)
        } else {
            prev
        }
    }
}

/// Score of the best incomplete span with head `h` and dependent `d`.
pub open spec fn inc_val(s: Seq<i64>, base: int, m: int, h: int, d: int) -> Option<int>
    decreases dist(h, d), 1int, 0int,
{
    if h == d {
        Some(0)
    } else {
        inc_fold(s, base, m, h, d, hi(h, d)).0
    }
}

/// Score of the best complete span from head `h` to end `e`, as later spans see it: a span
/// headed by the root that does not reach the sentence end is closed to them.
pub open spec fn comp_val(s: Seq<i64>, base: int, m: int, h: int, e: int) -> Option<int>
    decreases dist(h, e), 3int, 0int,
{
    if h == e {
        Some(0)
    } else if h == 0 {
        None
    } else {
        comp_fold(s, base, m, h, e, comp_last(h, e)).0
    }
}

/// Backpointer of the incomplete span with head `h` and dependent `d`.
pub open spec fn inc_bp(s: Seq<i64>, base: int, m: int, h: int, d: int) -> int {
    inc_fold(s, base, m, h, d, hi(h, d)).1
}

/// Backpointer of the complete span from head `h` to end `e`.
pub open spec fn comp_bp(s: Seq<i64>, base: int, m: int, h: int, e: int) -> int {
    comp_fold(s, base, m, h, e, comp_last(h, e)).1
}

pub open spec fn inc_bp_fn(s: Seq<i64>, base: int, m: int) -> spec_fn(int, int) -> int {
    |a: int, b: int| inc_bp(s, base, m, a, b)
}

pub open spec fn comp_bp_fn(s: Seq<i64>, base: int, m: int) -> spec_fn(int, int) -> int {
    |a: int, b: int| comp_bp(s, base, m, a, b)
}

/// The arcs of the best projective tree over `0..n`, rooted at 0.
pub open spec fn eisner_arcs(s: Seq<i64>, base: int, m: int, n: int) -> Map<int, int> {
    tree_arcs(inc_bp_fn(s, base, m), comp_bp_fn(s, base, m), 0, n - 1, true)
}

/// The decoded heads of a sentence of length `n`, root included, with the first `shift`
/// positions left out; a position that receives no arc keeps 1.
pub open spec fn eisner_heads(s: Seq<i64>, base: int, m: int, n: int, shift: int) -> Seq<usize> {
    Seq::new(
        (n - shift) as nat,
        |k: int|
            if eisner_arcs(s, base, m, n).dom().contains(k + shift) {
                eisner_arcs(s, base, m, n)[k + shift] as usize
            } else {
                1usize
            },
    )
}

pub open spec fn lo(i: int, j: int) -> int {
    if i <= j { i } else { j }
}

pub open spec fn hi(i: int, j: int) -> int {
    if i <= j { j } else { i }
}

pub open spec fn dist(i: int, j: int) -> int {
    hi(i, j) - lo(i, j)
}

/// Split point `r` of the complete span from head `i` to the far end `j`.
pub open spec fn complete_split_ok(i: int, j: int, r: int) -> bool {
    if i < j { i < r <= j } else { j <= r < i }
}

/// Split point `r` of the incomplete span between `i` and `j`.
pub open spec fn incomplete_split_ok(i: int, j: int, r: int) -> bool {
    lo(i, j) <= r < hi(i, j)
}

/// Backpointers of every span inside `lo..=hi` point inside that span.
pub open spec fn valid_backpointers_on(p_i: spec_fn(int, int) -> int, p_c: spec_fn(int, int) -> int, lo: int, hi: int) -> bool {
    &&& forall|a: int, b: int|
        lo <= a <= hi && lo <= b <= hi && a != b ==> incomplete_split_ok(a, b, #[trigger] p_i(a, b))
    &&& forall|a: int, b: int|
        lo <= a <= hi && lo <= b <= hi && a != b ==> complete_split_ok(a, b, #[trigger] p_c(a, b))
}

/// The lowest position of the span from head `i` to `j` other than `i`.
pub open spec fn first_dependent(i: int, j: int) -> int {
    if i <= j { i + 1 } else { j }
}

/// The highest position of the span from head `i` to `j` other than `i`.
pub open spec fn last_dependent(i: int, j: int) -> int {
    if i <= j { j } else { i - 1 }
}

/// Every row `lo..=hi` of `t` exists and reaches column `hi`.
pub open spec fn rows_cover<T>(t: Seq<Vec<T>>, lo: int, hi: int) -> bool {
    &&& hi < t.len()
    &&& forall|a: int| lo <= a <= hi ==> #[trigger] t[a]@.len() > hi
}

/// Backpointers of every span inside `0..n` point inside that span.
pub open spec fn valid_backpointers(p_i: spec_fn(int, int) -> int, p_c: spec_fn(int, int) -> int, n: int) -> bool {
    valid_backpointers_on(p_i, p_c, 0, n - 1)
}

/// A backpointer table held as rows, read as a function.
pub open spec fn table_fn(t: Seq<Vec<usize>>) -> spec_fn(int, int) -> int {
    |a: int, b: int| t[a]@[b] as int
}

/// The arcs that the backtrace reads off the span from `i` to `j`, as a map from each
/// dependent to its head.
pub open spec fn tree_arcs(p_i: spec_fn(int, int) -> int, p_c: spec_fn(int, int) -> int, i: int, j: int, complete: bool) -> Map<int, int>
    decreases dist(i, j), if complete { 1int } else { 0int },
{
    if i == j {
        Map::empty()
    } else if complete {
        let r = p_c(i, j);
        if complete_split_ok(i, j, r) {
            tree_arcs(p_i, p_c, i, r, false).union_prefer_right(tree_arcs(p_i, p_c, r, j, true))
        } else {
            Map::empty()
        }
    } else {
        let r = p_i(i, j);
        if incomplete_split_ok(i, j, r) {
            tree_arcs(p_i, p_c, lo(i, j), r, true).union_prefer_right(
                tree_arcs(p_i, p_c, hi(i, j), r + 1, true),
            ).insert(j, i)
        } else {
            Map::empty()
        }
    }
}

/// Arcs `(h1, d1)` and `(h2, d2)` cross when drawn above the sentence.
pub open spec fn crossing(h1: int, d1: int, h2: int, d2: int) -> bool {
    let a1 = lo(h1, d1);
    let b1 = hi(h1, d1);
    let a2 = lo(h2, d2);
    let b2 = hi(h2, d2);
    (a1 < a2 && a2 < b1 && b1 < b2) || (a2 < a1 && a1 < b2 && b2 < b1)
}

/// Every position of the span but its head `i` has a head inside the span, different
/// from itself, and no two arcs cross.
pub open spec fn span_tree(m: Map<int, int>, i: int, j: int) -> bool {
    &&& forall|d: int| m.dom().contains(d) <==> (lo(i, j) <= d <= hi(i, j) && d != i)
    &&& forall|d: int| #[trigger] m.dom().contains(d) ==> lo(i, j) <= m[d] <= hi(i, j) && m[d] != d
    &&& forall|d1: int, d2: int|
        #[trigger] m.dom().contains(d1) && #[trigger] m.dom().contains(d2) ==> !crossing(m[d1], d1, m[d2], d2)
}

proof fn lemma_tree_arcs(p_i: spec_fn(int, int) -> int, p_c: spec_fn(int, int) -> int, i: int, j: int, complete: bool)
    requires
        valid_backpointers_on(p_i, p_c, lo(i, j), hi(i, j)),
    ensures
        span_tree(tree_arcs(p_i, p_c, i, j, complete), i, j),
    decreases dist(i, j), if complete { 1int } else { 0int },
{
    let m = tree_arcs(p_i, p_c, i, j, complete);
    if i == j {
    } else if complete {
        let r = p_c(i, j);
        assert(complete_split_ok(i, j, r));
        lemma_tree_arcs(p_i, p_c, i, r, false);
        lemma_tree_arcs(p_i, p_c, r, j, true);
        let m1 = tree_arcs(p_i, p_c, i, r, false);
        let m2 = tree_arcs(p_i, p_c, r, j, true);
        assert(m == m1.union_prefer_right(m2));
        assert forall|d: int| m.dom().contains(d) <==> (lo(i, j) <= d <= hi(i, j) && d != i) by {
        }
        assert forall|d: int| #[trigger] m.dom().contains(d) implies lo(i, j) <= m[d] <= hi(i, j) && m[d] != d by {
            if m2.dom().contains(d) {
            } else {
                assert(m1.dom().contains(d));
            }
        }
        assert forall|d1: int, d2: int|
            #[trigger] m.dom().contains(d1) && #[trigger] m.dom().contains(d2) implies !crossing(m[d1], d1, m[d2], d2) by {
            if m2.dom().contains(d1) {
                if m2.dom().contains(d2) {
                } else {
                    assert(m1.dom().contains(d2));
                }
            } else {
                assert(m1.dom().contains(d1));
                if m2.dom().contains(d2) {
                } else {
                    assert(m1.dom().contains(d2));
                }
            }
        }
    } else {
        let r = p_i(i, j);
        assert(incomplete_split_ok(i, j, r));
        let a = lo(i, j);
        let b = hi(i, j);
        lemma_tree_arcs(p_i, p_c, a, r, true);
        lemma_tree_arcs(p_i, p_c, b, r + 1, true);
        let m1 = tree_arcs(p_i, p_c, a, r, true);
        let m2 = tree_arcs(p_i, p_c, b, r + 1, true);
        let u = m1.union_prefer_right(m2);
        assert(m == u.insert(j, i));
        assert forall|d: int| m.dom().contains(d) <==> (lo(i, j) <= d <= hi(i, j) && d != i) by {
        }
        assert forall|d: int| #[trigger] m.dom().contains(d) implies lo(i, j) <= m[d] <= hi(i, j) && m[d] != d by {
            if d == j {
            } else if m2.dom().contains(d) {
            } else {
                assert(m1.dom().contains(d));
            }
        }
        assert forall|d1: int, d2: int|
            #[trigger] m.dom().contains(d1) && #[trigger] m.dom().contains(d2) implies !crossing(m[d1], d1, m[d2], d2) by {
            if d1 != j && !m2.dom().contains(d1) {
                assert(m1.dom().contains(d1));
            }
            if d2 != j && !m2.dom().contains(d2) {
                assert(m1.dom().contains(d2));
            }
        }
    }
}

/// `head` after writing the arcs `m`, where dependent `d` is stored at `d - shift`.
pub open spec fn heads_written(before: Seq<usize>, after: Seq<usize>, m: Map<int, int>, shift: int) -> bool {
    &&& after.len() == before.len()
    &&& forall|k: int|
        0 <= k < after.len() ==> #[trigger] after[k] == if m.dom().contains(k + shift) {
            m[k + shift] as usize
        } else {
            before[k]
        }
}

fn fill<T: Copy>(array: &mut Vec<T>, num: T, size: usize)
    requires
        size <= old(array)@.len(),
    ensures
        final(array)@.len() == old(array)@.len(),
        forall|k: int| 0 <= k < size ==> #[trigger] final(array)@[k] == num,
        forall|k: int| size <= k < old(array)@.len() ==> #[trigger] final(array)@[k] == old(array)@[k],
{
    let mut i: usize = 0;
    while i < size
        invariant
            size <= array@.len(),
            array@.len() == old(array)@.len(),
            i <= size,
            forall|k: int| 0 <= k < i ==> #[trigger] array@[k] == num,
            forall|k: int| size <= k < array@.len() ==> #[trigger] array@[k] == old(array)@[k],
        decreases size - i,
    {
        array.set(i, num);
        i = i + 1;
    }
}

/// Writes the head of every dependent of the span from `i` to `j` into `head`, at the
/// dependent's position less `remove_root`; the arcs written form a projective tree over the
/// span, rooted at `i`.
fn backtrack(
    p_i: &Vec<Vec<usize>>,
    p_c: &Vec<Vec<usize>>,
    i: usize,
    j: usize,
    complete: bool,
    head: &mut Vec<usize>,
    remove_root: usize,
)
    requires
        rows_cover(p_i@, lo(i as int, j as int), hi(i as int, j as int)),
        rows_cover(p_c@, lo(i as int, j as int), hi(i as int, j as int)),
        valid_backpointers_on(table_fn(p_i@), table_fn(p_c@), lo(i as int, j as int), hi(i as int, j as int)),
        i != j ==> remove_root <= first_dependent(i as int, j as int),
        i != j ==> last_dependent(i as int, j as int) < old(head)@.len() + remove_root,
    ensures
        heads_written(old(head)@, final(head)@, tree_arcs(table_fn(p_i@), table_fn(p_c@), i as int, j as int, complete), remove_root as int),
        span_tree(tree_arcs(table_fn(p_i@), table_fn(p_c@), i as int, j as int, complete), i as int, j as int),
        !complete && i != j ==> final(head)@[j - remove_root] == i,
    decreases dist(i as int, j as int), if complete { 1int } else { 0int },
{
    proof {
        lemma_tree_arcs(table_fn(p_i@), table_fn(p_c@), i as int, j as int, complete);
    }
    let ghost m = tree_arcs(table_fn(p_i@), table_fn(p_c@), i as int, j as int, complete);
    if i == j {
        return;
    }
    if complete {
        let r = p_c[i][j];
        assert(r as int == table_fn(p_c@)(i as int, j as int));
        assert(complete_split_ok(i as int, j as int, r as int));
        backtrack(p_i, p_c, i, r, false, head, remove_root);
        backtrack(p_i, p_c, r, j, true, head, remove_root);
        let ghost m1 = tree_arcs(table_fn(p_i@), table_fn(p_c@), i as int, r as int, false);
        let ghost m2 = tree_arcs(table_fn(p_i@), table_fn(p_c@), r as int, j as int, true);
        assert(m == m1.union_prefer_right(m2));
    } else {
        let r = p_i[i][j];
        assert(r as int == table_fn(p_i@)(i as int, j as int));
        assert(incomplete_split_ok(i as int, j as int, r as int));
        assert(remove_root <= j);
        head.set(j - remove_root, i);
        let a = if i < j { i } else { j };
        let b = if i < j { j } else { i };
        backtrack(p_i, p_c, a, r, true, head, remove_root);
        backtrack(p_i, p_c, b, r + 1, true, head, remove_root);
        let ghost m1 = tree_arcs(table_fn(p_i@), table_fn(p_c@), a as int, r as int, true);
        let ghost m2 = tree_arcs(table_fn(p_i@), table_fn(p_c@), b as int, r + 1, true);
        proof {
            lemma_tree_arcs(table_fn(p_i@), table_fn(p_c@), a as int, r as int, true);
            lemma_tree_arcs(table_fn(p_i@), table_fn(p_c@), b as int, r + 1, true);
        }
        assert(m == m1.union_prefer_right(m2).insert(j as int, i as int));
    }
}

proof fn lemma_inc_fold_index(s: Seq<i64>, base: int, m: int, h: int, d: int, k: int)
    requires
        lo(h, d) < k <= hi(h, d),
    ensures
        lo(h, d) <= inc_fold(s, base, m, h, d, k).1 < k,
    decreases k - lo(h, d),
{
    if k - 1 > lo(h, d) {
        lemma_inc_fold_index(s, base, m, h, d, k - 1);
    } else {
        assert(inc_fold(s, base, m, h, d, k - 1).1 == lo(h, d));
    }
}

proof fn lemma_comp_fold_index(s: Seq<i64>, base: int, m: int, h: int, e: int, k: int)
    requires
        comp_first(h, e) < k <= comp_last(h, e),
    ensures
        comp_first(h, e) <= comp_fold(s, base, m, h, e, k).1 < k,
    decreases k - comp_first(h, e),
{
    if k - 1 > comp_first(h, e) {
        lemma_comp_fold_index(s, base, m, h, e, k - 1);
    } else {
        assert(comp_fold(s, base, m, h, e, k - 1).1 == comp_first(h, e));
    }
}

/// The backpointers of the recurrences stay inside their spans.
proof fn lemma_spec_backpointers(s: Seq<i64>, base: int, m: int, n: int)
    ensures
        valid_backpointers(inc_bp_fn(s, base, m), comp_bp_fn(s, base, m), n),
{
    assert forall|a: int, b: int| 0 <= a < n && 0 <= b < n && a != b implies incomplete_split_ok(a, b, #[trigger] inc_bp_fn(s, base, m)(a, b)) by {
        lemma_inc_fold_index(s, base, m, a, b, hi(a, b));
    }
    assert forall|a: int, b: int| 0 <= a < n && 0 <= b < n && a != b implies complete_split_ok(a, b, #[trigger] comp_bp_fn(s, base, m)(a, b)) by {
        lemma_comp_fold_index(s, base, m, a, b, comp_last(a, b));
    }
}

/// Backpointer functions that agree on `0..n` read off the same arcs.
proof fn lemma_tree_arcs_agree(
    pa: spec_fn(int, int) -> int,
    ca: spec_fn(int, int) -> int,
    pb: spec_fn(int, int) -> int,
    cb: spec_fn(int, int) -> int,
    n: int,
    i: int,
    j: int,
    complete: bool,
)
    requires
        valid_backpointers(pa, ca, n),
        forall|a: int, b: int| 0 <= a < n && 0 <= b < n && a != b ==> #[trigger] pa(a, b) == pb(a, b),
        forall|a: int, b: int| 0 <= a < n && 0 <= b < n && a != b ==> #[trigger] ca(a, b) == cb(a, b),
        0 <= i < n,
        0 <= j < n,
    ensures
        tree_arcs(pa, ca, i, j, complete) == tree_arcs(pb, cb, i, j, complete),
    decreases dist(i, j), if complete { 1int } else { 0int },
{
    if i == j {
    } else if complete {
        let r = ca(i, j);
        assert(cb(i, j) == r);
        lemma_tree_arcs_agree(pa, ca, pb, cb, n, i, r, false);
        lemma_tree_arcs_agree(pa, ca, pb, cb, n, r, j, true);
    } else {
        let r = pa(i, j);
        assert(pb(i, j) == r);
        lemma_tree_arcs_agree(pa, ca, pb, cb, n, lo(i, j), r, true);
        lemma_tree_arcs_agree(pa, ca, pb, cb, n, hi(i, j), r + 1, true);
    }
}

pub open spec fn ov(x: Option<i64>) -> Option<int> {
    match x {
        Some(v) => Some(v as int),
        None => None,
    }
}

/// A score summed from at most `w` arc scores.
pub open spec fn bounded(x: Option<i64>, w: int) -> bool {
    match x {
        Some(v) => -w * SCORE_LIMIT <= v <= w * SCORE_LIMIT,
        None => true,
    }
}

fn plus(x: Option<i64>, y: Option<i64>, Ghost(wx): Ghost<int>, Ghost(wy): Ghost<int>) -> (r: Option<i64>)
    requires
        bounded(x, wx),
        bounded(y, wy),
        0 <= wx,
        0 <= wy,
        wx + wy <= MAX_SENTENCE,
    ensures
        ov(r) == add_opt(ov(x), ov(y)),
        bounded(r, wx + wy),
{
    match (x, y) {
        (Some(a), Some(b)) => Some(a + b),
        _ => None,
    }
}

fn better(x: Option<i64>, y: Option<i64>) -> (r: bool)
    ensures
        r == beats(ov(x), ov(y)),
{
    match (x, y) {
        (Some(a), Some(b)) => a > b,
        (Some(_), None) => true,
        _ => false,
    }
}

/// The rows of `t` are all `m` long, and there are `m` of them.
pub open spec fn square<T>(t: Seq<Vec<T>>, m: int) -> bool {
    &&& t.len() == m
    &&& forall|a: int| 0 <= a < m ==> #[trigger] t[a]@.len() == m
}

/// Complete spans of width at most `w` hold their recurrence values.
pub open spec fn comp_values_done(sc: Seq<Vec<Option<i64>>>, s: Seq<i64>, base: int, m: int, n: int, w: int) -> bool {
    &&& forall|a: int| 0 <= a < n ==> #[trigger] sc[a]@[a] == Some(0i64)
    &&& forall|a: int, b: int|
        0 <= a < n && 0 <= b < n && 0 < dist(a, b) <= w ==> {
            &&& ov(#[trigger] sc[a]@[b]) == comp_val(s, base, m, a, b)
            &&& bounded(sc[a]@[b], dist(a, b))
        }
}

/// Complete spans of width at most `w` hold their backpointers.
pub open spec fn comp_bps_done(bc: Seq<Vec<usize>>, s: Seq<i64>, base: int, m: int, n: int, w: int) -> bool {
    forall|a: int, b: int|
        0 <= a < n && 0 <= b < n && 0 < dist(a, b) <= w ==> #[trigger] bc[a]@[b] as int == comp_bp(s, base, m, a, b)
}

/// Incomplete spans of width at most `w` hold their recurrence values.
pub open spec fn inc_values_done(si: Seq<Vec<Option<i64>>>, s: Seq<i64>, base: int, m: int, n: int, w: int) -> bool {
    forall|a: int, b: int|
        0 <= a < n && 0 <= b < n && 0 < dist(a, b) <= w ==> {
            &&& ov(#[trigger] si[a]@[b]) == inc_val(s, base, m, a, b)
            &&& bounded(si[a]@[b], dist(a, b))
        }
}

/// Incomplete spans of width at most `w` hold their backpointers.
pub open spec fn inc_bps_done(bi: Seq<Vec<usize>>, s: Seq<i64>, base: int, m: int, n: int, w: int) -> bool {
    forall|a: int, b: int|
        0 <= a < n && 0 <= b < n && 0 < dist(a, b) <= w ==> #[trigger] bi[a]@[b] as int == inc_bp(s, base, m, a, b)
}

/// The scores of a block at `base` with `m` by `m` entries are in `s`, each within the limit.
pub open spec fn block_fits(s: Seq<i64>, base: int, m: int) -> bool {
    &&& 0 <= base
    &&& base + m * m <= s.len()
    &&& forall|k: int| 0 <= k < s.len() ==> -SCORE_LIMIT <= #[trigger] s[k] <= SCORE_LIMIT
}

fn score_at(scores: &[i64], bias: usize, m: usize, h: usize, d: usize) -> (r: i64)
    requires
        block_fits(scores@, bias as int, m as int),
        h < m,
        d < m,
    ensures
        r as int == arc_score(scores@, bias as int, m as int, h as int, d as int),
        -SCORE_LIMIT <= r <= SCORE_LIMIT,
{
    assert(d * m + h < m * m) by (nonlinear_arith)
        requires d < m, h < m;
    let len = scores.len();
    assert(bias + m * m <= len);
    scores[bias + d * m + h]
}

/// Best split of the incomplete span with head `h` and dependent `d`.
fn best_incomplete(
    bs_c: &Vec<Vec<Option<i64>>>,
    scores: &[i64],
    bias: usize,
    m: usize,
    n: usize,
    h: usize,
    d: usize,
) -> (r: (Option<i64>, usize))
    requires
        block_fits(scores@, bias as int, m as int),
        n <= m,
        n <= MAX_SENTENCE,
        square(bs_c@, m as int),
        h < n,
        d < n,
        h != d,
        comp_values_done(bs_c@, scores@, bias as int, m as int, n as int, dist(h as int, d as int) - 1),
    ensures
        ov(r.0) == inc_val(scores@, bias as int, m as int, h as int, d as int),
        r.1 as int == inc_bp(scores@, bias as int, m as int, h as int, d as int),
        bounded(r.0, dist(h as int, d as int)),
{
    let ghost s = scores@;
    let a = if h < d { h } else { d };
    let b = if h < d { d } else { h };
    let arc = score_at(scores, bias, m, h, d);
    let mut max_score: Option<i64> = None;
    let mut max_index: usize = a;
    let mut r: usize = a;
    while r < b
        invariant
            a <= r <= b,
            a == lo(h as int, d as int),
            b == hi(h as int, d as int),
            b < n,
            n <= m,
            n <= MAX_SENTENCE,
            square(bs_c@, m as int),
            -SCORE_LIMIT <= arc <= SCORE_LIMIT,
            arc as int == arc_score(s, bias as int, m as int, h as int, d as int),
            s == scores@,
            comp_values_done(bs_c@, s, bias as int, m as int, n as int, dist(h as int, d as int) - 1),
            (ov(max_score), max_index as int) == inc_fold(s, bias as int, m as int, h as int, d as int, r as int),
            bounded(max_score, b - a),
        decreases b - r,
    {
        let left = bs_c[a][r];
        let right = bs_c[b][r + 1];
        let sum = plus(left, right, Ghost(r - a), Ghost(b - r - 1));
        let cand = plus(sum, Some(arc), Ghost(b - a - 1), Ghost(1));
        if better(cand, max_score) {
            max_score = cand;
            max_index = r;
        }
        r = r + 1;
    }
    (max_score, max_index)
}

/// Best split of the complete span from head `h` to end `e`, before the root rule.
fn best_complete(
    bs_i: &Vec<Vec<Option<i64>>>,
    bs_c: &Vec<Vec<Option<i64>>>,
    scores: Ghost<Seq<i64>>,
    bias: Ghost<int>,
    m: usize,
    n: usize,
    h: usize,
    e: usize,
) -> (r: (Option<i64>, usize))
    requires
        n <= m,
        n <= MAX_SENTENCE,
        square(bs_i@, m as int),
        square(bs_c@, m as int),
        h < n,
        e < n,
        h != e,
        inc_values_done(bs_i@, scores@, bias@, m as int, n as int, dist(h as int, e as int)),
        comp_values_done(bs_c@, scores@, bias@, m as int, n as int, dist(h as int, e as int) - 1),
    ensures
        (ov(r.0), r.1 as int) == comp_fold(scores@, bias@, m as int, h as int, e as int, comp_last(h as int, e as int)),
        bounded(r.0, dist(h as int, e as int)),
{
    let first = if h < e { h + 1 } else { e };
    let last = if h < e { e + 1 } else { h };
    let mut max_score: Option<i64> = None;
    let mut max_index: usize = first;
    let mut r: usize = first;
    while r < last
        invariant
            first <= r <= last,
            h < n,
            e < n,
            h != e,
            first == comp_first(h as int, e as int),
            last == comp_last(h as int, e as int),
            last <= n,
            n <= m,
            n <= MAX_SENTENCE,
            square(bs_i@, m as int),
            square(bs_c@, m as int),
            inc_values_done(bs_i@, scores@, bias@, m as int, n as int, dist(h as int, e as int)),
            comp_values_done(bs_c@, scores@, bias@, m as int, n as int, dist(h as int, e as int) - 1),
            (ov(max_score), max_index as int) == comp_fold(scores@, bias@, m as int, h as int, e as int, r as int),
            bounded(max_score, dist(h as int, e as int)),
        decreases last - r,
    {
        let inner = bs_i[h][r];
        let outer = bs_c[r][e];
        let cand = plus(inner, outer, Ghost(dist(h as int, r as int)), Ghost(dist(r as int, e as int)));
        if better(cand, max_score) {
            max_score = cand;
            max_index = r;
        }
        r = r + 1;
    }
    (max_score, max_index)
}

/// Incomplete span with head `a` and dependent `b` holds its value and backpointer.
pub open spec fn inc_entry_done(si: Seq<Vec<Option<i64>>>, bi: Seq<Vec<usize>>, s: Seq<i64>, base: int, m: int, a: int, b: int) -> bool {
    &&& ov(si[a]@[b]) == inc_val(s, base, m, a, b)
    &&& bounded(si[a]@[b], dist(a, b))
    &&& bi[a]@[b] as int == inc_bp(s, base, m, a, b)
}

/// Writing one entry of a table leaves the others as they were.
proof fn lemma_set_entry<T>(before: Seq<Vec<T>>, after: Seq<Vec<T>>, a: int, b: int)
    requires
        0 <= a < before.len(),
        after.len() == before.len(),
        after[a]@.len() == before[a]@.len(),
        forall|k: int| 0 <= k < before.len() && k != a ==> after[k] == before[k],
        forall|k: int| 0 <= k < before[a]@.len() && k != b ==> after[a]@[k] == before[a]@[k],
    ensures
        forall|x: int, y: int|
            0 <= x < before.len() && 0 <= y < before[x]@.len() && (x != a || y != b) ==> #[trigger] after[x]@[y] == before[x]@[y],
{
}

/// Fills the incomplete spans of width `w`, both directions.
fn stage_incomplete(
    bs_c: &Vec<Vec<Option<i64>>>,
    bs_i: &mut Vec<Vec<Option<i64>>>,
    bp_i: &mut Vec<Vec<usize>>,
    scores: &[i64],
    bias: usize,
    m: usize,
    n: usize,
    w: usize,
)
    requires
        block_fits(scores@, bias as int, m as int),
        n <= m,
        n <= MAX_SENTENCE,
        1 <= w < n,
        square(bs_c@, m as int),
        square(old(bs_i)@, m as int),
        square(old(bp_i)@, m as int),
        comp_values_done(bs_c@, scores@, bias as int, m as int, n as int, w - 1),
        inc_values_done(old(bs_i)@, scores@, bias as int, m as int, n as int, w - 1),
        inc_bps_done(old(bp_i)@, scores@, bias as int, m as int, n as int, w - 1),
    ensures
        square(final(bs_i)@, m as int),
        square(final(bp_i)@, m as int),
        inc_values_done(final(bs_i)@, scores@, bias as int, m as int, n as int, w as int),
        inc_bps_done(final(bp_i)@, scores@, bias as int, m as int, n as int, w as int),
{
    let ghost s = scores@;
    let count = n - w;
    // I(j -> i) for i < j
    let mut i: usize = 0;
    while i < count
        invariant
            block_fits(s, bias as int, m as int),
            s == scores@,
            n <= m,
            n <= MAX_SENTENCE,
            1 <= w < n,
            count == n - w,
            i <= count,
            square(bs_c@, m as int),
            square(bs_i@, m as int),
            square(bp_i@, m as int),
            comp_values_done(bs_c@, s, bias as int, m as int, n as int, w - 1),
            inc_values_done(bs_i@, s, bias as int, m as int, n as int, w - 1),
            inc_bps_done(bp_i@, s, bias as int, m as int, n as int, w - 1),
            forall|a: int, b: int|
                0 <= b < i && a == b + w ==> #[trigger] inc_entry_done(bs_i@, bp_i@, s, bias as int, m as int, a, b),
        decreases count - i,
    {
        let j = i + w;
        let (max_score, max_index) = best_incomplete(bs_c, scores, bias, m, n, j, i);
        let ghost si0 = bs_i@;
        let ghost bi0 = bp_i@;
        bs_i[j].set(i, max_score);
        bp_i[j].set(i, max_index);
        proof {
            lemma_set_entry(si0, bs_i@, j as int, i as int);
            lemma_set_entry(bi0, bp_i@, j as int, i as int);
            assert forall|a: int, b: int|
                0 <= b < i + 1 && a == b + w implies #[trigger] inc_entry_done(bs_i@, bp_i@, s, bias as int, m as int, a, b) by {
                if b < i {
                    assert(inc_entry_done(si0, bi0, s, bias as int, m as int, a, b));
                }
            }
        }
        i = i + 1;
    }
    // I(i -> j) for i < j
    let mut i: usize = 0;
    while i < count
        invariant
            block_fits(s, bias as int, m as int),
            s == scores@,
            n <= m,
            n <= MAX_SENTENCE,
            1 <= w < n,
            count == n - w,
            i <= count,
            square(bs_c@, m as int),
            square(bs_i@, m as int),
            square(bp_i@, m as int),
            comp_values_done(bs_c@, s, bias as int, m as int, n as int, w - 1),
            inc_values_done(bs_i@, s, bias as int, m as int, n as int, w - 1),
            inc_bps_done(bp_i@, s, bias as int, m as int, n as int, w - 1),
            forall|a: int, b: int|
                0 <= b < count && a == b + w ==> #[trigger] inc_entry_done(bs_i@, bp_i@, s, bias as int, m as int, a, b),
            forall|a: int, b: int|
                0 <= a < i && b == a + w ==> #[trigger] inc_entry_done(bs_i@, bp_i@, s, bias as int, m as int, a, b),
        decreases count - i,
    {
        let j = i + w;
        let (max_score, max_index) = best_incomplete(bs_c, scores, bias, m, n, i, j);
        let ghost si0 = bs_i@;
        let ghost bi0 = bp_i@;
        bs_i[i].set(j, max_score);
        bp_i[i].set(j, max_index);
        proof {
            lemma_set_entry(si0, bs_i@, i as int, j as int);
            lemma_set_entry(bi0, bp_i@, i as int, j as int);
            assert forall|a: int, b: int|
                0 <= b < count && a == b + w implies #[trigger] inc_entry_done(bs_i@, bp_i@, s, bias as int, m as int, a, b) by {
                assert(inc_entry_done(si0, bi0, s, bias as int, m as int, a, b));
            }
            assert forall|a: int, b: int|
                0 <= a < i + 1 && b == a + w implies #[trigger] inc_entry_done(bs_i@, bp_i@, s, bias as int, m as int, a, b) by {
                if a < i {
                    assert(inc_entry_done(si0, bi0, s, bias as int, m as int, a, b));
                }
            }
        }
        i = i + 1;
    }
    assert forall|a: int, b: int|
        0 <= a < n && 0 <= b < n && 0 < dist(a, b) <= w implies {
            &&& ov(#[trigger] bs_i@[a]@[b]) == inc_val(s, bias as int, m as int, a, b)
            &&& bounded(bs_i@[a]@[b], dist(a, b))
        } by {
        if dist(a, b) == w {
            assert(inc_entry_done(bs_i@, bp_i@, s, bias as int, m as int, a, b));
        }
    }
    assert forall|a: int, b: int|
        0 <= a < n && 0 <= b < n && 0 < dist(a, b) <= w implies #[trigger] bp_i@[a]@[b] as int == inc_bp(s, bias as int, m as int, a, b) by {
        if dist(a, b) == w {
            assert(inc_entry_done(bs_i@, bp_i@, s, bias as int, m as int, a, b));
        }
    }
}

/// Complete span from head `a` to end `b` holds its best split value and backpointer.
pub open spec fn comp_entry_done(sc: Seq<Vec<Option<i64>>>, bc: Seq<Vec<usize>>, s: Seq<i64>, base: int, m: int, a: int, b: int) -> bool {
    &&& ov(sc[a]@[b]) == comp_fold(s, base, m, a, b, comp_last(a, b)).0
    &&& bounded(sc[a]@[b], dist(a, b))
    &&& bc[a]@[b] as int == comp_bp(s, base, m, a, b)
}

/// Fills the complete spans of width `w`, both directions, then closes the root's span of
/// that width to the wider spans.
fn stage_complete(
    bs_i: &Vec<Vec<Option<i64>>>,
    bs_c: &mut Vec<Vec<Option<i64>>>,
    bp_c: &mut Vec<Vec<usize>>,
    scores: Ghost<Seq<i64>>,
    bias: Ghost<int>,
    m: usize,
    n: usize,
    w: usize,
)
    requires
        n <= m,
        n <= MAX_SENTENCE,
        1 <= w < n,
        square(bs_i@, m as int),
        square(old(bs_c)@, m as int),
        square(old(bp_c)@, m as int),
        inc_values_done(bs_i@, scores@, bias@, m as int, n as int, w as int),
        comp_values_done(old(bs_c)@, scores@, bias@, m as int, n as int, w - 1),
        comp_bps_done(old(bp_c)@, scores@, bias@, m as int, n as int, w - 1),
    ensures
        square(final(bs_c)@, m as int),
        square(final(bp_c)@, m as int),
        comp_values_done(final(bs_c)@, scores@, bias@, m as int, n as int, w as int),
        comp_bps_done(final(bp_c)@, scores@, bias@, m as int, n as int, w as int),
{
    let ghost s = scores@;
    let ghost base = bias@;
    let count = n - w;
    // C(j -> i) for i < j
    let mut i: usize = 0;
    while i < count
        invariant
            n <= m,
            n <= MAX_SENTENCE,
            1 <= w < n,
            count == n - w,
            i <= count,
            s == scores@,
            base == bias@,
            square(bs_i@, m as int),
            square(bs_c@, m as int),
            square(bp_c@, m as int),
            inc_values_done(bs_i@, s, base, m as int, n as int, w as int),
            comp_values_done(bs_c@, s, base, m as int, n as int, w - 1),
            comp_bps_done(bp_c@, s, base, m as int, n as int, w - 1),
            forall|a: int, b: int|
                0 <= b < i && a == b + w ==> #[trigger] comp_entry_done(bs_c@, bp_c@, s, base, m as int, a, b),
        decreases count - i,
    {
        let j = i + w;
        let (max_score, max_index) = best_complete(bs_i, bs_c, scores, bias, m, n, j, i);
        let ghost sc0 = bs_c@;
        let ghost bc0 = bp_c@;
        bs_c[j].set(i, max_score);
        bp_c[j].set(i, max_index);
        proof {
            lemma_set_entry(sc0, bs_c@, j as int, i as int);
            lemma_set_entry(bc0, bp_c@, j as int, i as int);
            assert forall|a: int, b: int|
                0 <= b < i + 1 && a == b + w implies #[trigger] comp_entry_done(bs_c@, bp_c@, s, base, m as int, a, b) by {
                if b < i {
                    assert(comp_entry_done(sc0, bc0, s, base, m as int, a, b));
                }
            }
        }
        i = i + 1;
    }
    // C(i -> j) for i < j
    let mut i: usize = 0;
    while i < count
        invariant
            n <= m,
            n <= MAX_SENTENCE,
            1 <= w < n,
            count == n - w,
            i <= count,
            s == scores@,
            base == bias@,
            square(bs_i@, m as int),
            square(bs_c@, m as int),
            square(bp_c@, m as int),
            inc_values_done(bs_i@, s, base, m as int, n as int, w as int),
            comp_values_done(bs_c@, s, base, m as int, n as int, w - 1),
            comp_bps_done(bp_c@, s, base, m as int, n as int, w - 1),
            forall|a: int, b: int|
                0 <= b < count && a == b + w ==> #[trigger] comp_entry_done(bs_c@, bp_c@, s, base, m as int, a, b),
            forall|a: int, b: int|
                0 <= a < i && b == a + w ==> #[trigger] comp_entry_done(bs_c@, bp_c@, s, base, m as int, a, b),
        decreases count - i,
    {
        let j = i + w;
        let (max_score, max_index) = best_complete(bs_i, bs_c, scores, bias, m, n, i, j);
        let ghost sc0 = bs_c@;
        let ghost bc0 = bp_c@;
        bs_c[i].set(j, max_score);
        bp_c[i].set(j, max_index);
        proof {
            lemma_set_entry(sc0, bs_c@, i as int, j as int);
            lemma_set_entry(bc0, bp_c@, i as int, j as int);
            assert forall|a: int, b: int|
                0 <= b < count && a == b + w implies #[trigger] comp_entry_done(bs_c@, bp_c@, s, base, m as int, a, b) by {
                assert(comp_entry_done(sc0, bc0, s, base, m as int, a, b));
            }
            assert forall|a: int, b: int|
                0 <= a < i + 1 && b == a + w implies #[trigger] comp_entry_done(bs_c@, bp_c@, s, base, m as int, a, b) by {
                if a < i {
                    assert(comp_entry_done(sc0, bc0, s, base, m as int, a, b));
                }
            }
        }
        i = i + 1;
    }
    let ghost sc0 = bs_c@;
    bs_c[0].set(w, None);
    proof {
        lemma_set_entry(sc0, bs_c@, 0, w as int);
        assert forall|a: int, b: int|
            0 <= a < n && 0 <= b < n && 0 < dist(a, b) <= w implies {
                &&& ov(#[trigger] bs_c@[a]@[b]) == comp_val(s, base, m as int, a, b)
                &&& bounded(bs_c@[a]@[b], dist(a, b))
            } by {
            if dist(a, b) == w && (a != 0 || b != w) {
                assert(comp_entry_done(sc0, bp_c@, s, base, m as int, a, b));
            }
        }
        assert forall|a: int, b: int|
            0 <= a < n && 0 <= b < n && 0 < dist(a, b) <= w implies #[trigger] bp_c@[a]@[b] as int == comp_bp(s, base, m as int, a, b) by {
            if dist(a, b) == w {
                assert(comp_entry_done(sc0, bp_c@, s, base, m as int, a, b));
            }
        }
    }
}

fn new_table<T: Copy>(m: usize, v: T) -> (r: Vec<Vec<T>>)
    ensures
        square(r@, m as int),
{
    let mut t: Vec<Vec<T>> = Vec::new();
    let mut k: usize = 0;
    while k < m
        invariant
            k <= m,
            t@.len() == k,
            forall|a: int| 0 <= a < k ==> #[trigger] t@[a]@.len() == m,
        decreases m - k,
    {
        t.push(vec![v; m]);
        k = k + 1;
    }
    t
}

/// Sets every entry of an `m` by `m` table to `v`.
fn clear_table<T: Copy>(t: &mut Vec<Vec<T>>, v: T, m: usize)
    requires
        square(old(t)@, m as int),
    ensures
        square(final(t)@, m as int),
        forall|a: int, b: int| 0 <= a < m && 0 <= b < m ==> #[trigger] final(t)@[a]@[b] == v,
{
    let mut k: usize = 0;
    while k < m
        invariant
            k <= m,
            square(t@, m as int),
            forall|a: int, b: int| 0 <= a < k && 0 <= b < m ==> #[trigger] t@[a]@[b] == v,
        decreases m - k,
    {
        let ghost t0 = t@;
        fill(&mut t[k], v, m);
        assert forall|a: int| 0 <= a < m && a != k implies #[trigger] t@[a] == t0[a] by {
        }
        k = k + 1;
    }
}

/// What the decoder asks of its input: every sentence has between 1 and `MAX_SENTENCE`
/// positions (root included), the scores hold one block per sentence with rows as wide as
/// the longest sentence, and every score is within `SCORE_LIMIT`.
pub open spec fn eisner_input_ok(scores: Seq<i64>, lens: Seq<usize>) -> bool {
    &&& forall|b: int| 0 <= b < lens.len() ==> 1 <= #[trigger] lens[b] <= MAX_SENTENCE
    &&& lens.len() * (max_len(lens) * max_len(lens)) <= scores.len()
    &&& forall|k: int| 0 <= k < scores.len() ==> -SCORE_LIMIT <= #[trigger] scores[k] <= SCORE_LIMIT
}

/// Decodes, for each sentence of the batch, the best projective dependency tree over its
/// positions (position 0 is the root). Sentence `b` reads the block of scores that starts at
/// `b * m * m`, where `m` is the longest length; entry `d * m + h` scores the arc from head
/// `h` to dependent `d`. Each result lists the head of every position, without position 0
/// when `remove_root` is set.
pub fn eisner(scores: &[i64], stn_length: &[usize], remove_root: bool) -> (r: Vec<Vec<usize>>)
    requires
        eisner_input_ok(scores@, stn_length@),
    ensures
        r@.len() == stn_length@.len(),
        forall|b: int|
            0 <= b < r@.len() ==> #[trigger] r@[b]@ == eisner_heads(
                scores@,
                b * (max_len(stn_length@) * max_len(stn_length@)),
                max_len(stn_length@),
                stn_length@[b] as int,
                if remove_root { 1 } else { 0 },
            ),
{
    let ghost lens = stn_length@;
    let ghost s = scores@;
    let batch = stn_length.len();
    let mut max_stn_len: usize = 0;
    let mut k: usize = 0;
    while k < batch
        invariant
            lens == stn_length@,
            batch == lens.len(),
            k <= batch,
            max_stn_len as int == max_len(lens.subrange(0, k as int)),
        decreases batch - k,
    {
        assert(lens.subrange(0, k + 1).drop_last() =~= lens.subrange(0, k as int));
        if stn_length[k] > max_stn_len {
            max_stn_len = stn_length[k];
        }
        k = k + 1;
    }
    assert(lens.subrange(0, batch as int) =~= lens);
    proof {
        lemma_max_bounds(lens);
    }
    let m = max_stn_len;
    proof {
        lemma_max_at_most(lens, MAX_SENTENCE as int);
    }
    let slen = scores.len();
    assert(m * m <= slen) by (nonlinear_arith)
        requires
            batch * (m * m) <= slen,
            batch == 0 ==> m == 0,
            0 <= m;
    let score_block_size = m * m;

    let mut bs_i: Vec<Vec<Option<i64>>> = new_table(m, None);
    let mut bs_c: Vec<Vec<Option<i64>>> = new_table(m, None);
    let mut bp_i: Vec<Vec<usize>> = new_table(m, 0);
    let mut bp_c: Vec<Vec<usize>> = new_table(m, 0);

    let remove_root: usize = if remove_root { 1 } else { 0 };

    let mut res: Vec<Vec<usize>> = Vec::new();
    let mut b: usize = 0;
    while b < batch
        invariant
            lens == stn_length@,
            s == scores@,
            eisner_input_ok(s, lens),
            batch == lens.len(),
            m as int == max_len(lens),
            m <= MAX_SENTENCE,
            score_block_size == m * m,
            remove_root <= 1,
            square(bs_i@, m as int),
            square(bs_c@, m as int),
            square(bp_i@, m as int),
            square(bp_c@, m as int),
            forall|x: int| 0 <= x < batch ==> #[trigger] lens[x] <= m,
            b <= batch,
            res@.len() == b,
            forall|x: int|
                0 <= x < b ==> #[trigger] res@[x]@ == eisner_heads(s, x * (m * m), m as int, lens[x] as int, remove_root as int),
        decreases batch - b,
    {
        clear_table(&mut bs_i, None, m);
        clear_table(&mut bs_c, None, m);
        clear_table(&mut bp_i, 0, m);
        clear_table(&mut bp_c, 0, m);

        let n = stn_length[b];
        let slen = scores.len();
        assert(b * score_block_size + score_block_size <= slen) by (nonlinear_arith)
            requires
                b < batch,
                score_block_size == m * m,
                batch * (m * m) <= slen;
        let bscore_bias = b * score_block_size;
        let ghost base = bscore_bias as int;
        assert(block_fits(s, base, m as int));

        let mut k: usize = 0;
        while k < n
            invariant
                n <= m,
                k <= n,
                square(bs_i@, m as int),
                square(bs_c@, m as int),
                forall|a: int| 0 <= a < k ==> #[trigger] bs_c@[a]@[a] == Some(0i64),
            decreases n - k,
        {
            bs_i[k].set(k, Some(0));
            let ghost sc0 = bs_c@;
            bs_c[k].set(k, Some(0));
            proof {
                lemma_set_entry(sc0, bs_c@, k as int, k as int);
            }
            k = k + 1;
        }

        let mut w: usize = 1;
        while w < n
            invariant
                s == scores@,
                block_fits(s, base, m as int),
                base == bscore_bias,
                n <= m,
                n <= MAX_SENTENCE,
                1 <= w <= n,
                square(bs_i@, m as int),
                square(bs_c@, m as int),
                square(bp_i@, m as int),
                square(bp_c@, m as int),
                comp_values_done(bs_c@, s, base, m as int, n as int, w - 1),
                comp_bps_done(bp_c@, s, base, m as int, n as int, w - 1),
                inc_values_done(bs_i@, s, base, m as int, n as int, w - 1),
                inc_bps_done(bp_i@, s, base, m as int, n as int, w - 1),
            decreases n - w,
        {
            stage_incomplete(&bs_c, &mut bs_i, &mut bp_i, scores, bscore_bias, m, n, w);
            stage_complete(&bs_i, &mut bs_c, &mut bp_c, Ghost(s), Ghost(base), m, n, w);
            w = w + 1;
        }

        let head_len = n - remove_root;
        let mut b_head: Vec<usize> = vec![1usize; head_len];
        proof {
            let ti = table_fn(bp_i@);
            let tc = table_fn(bp_c@);
            let fi = inc_bp_fn(s, base, m as int);
            let fc = comp_bp_fn(s, base, m as int);
            lemma_spec_backpointers(s, base, m as int, n as int);
            assert forall|x: int, y: int| 0 <= x < n && 0 <= y < n && x != y implies #[trigger] fi(x, y) == ti(x, y) by {
                assert(bp_i@[x]@[y] as int == inc_bp(s, base, m as int, x, y));
            }
            assert forall|x: int, y: int| 0 <= x < n && 0 <= y < n && x != y implies #[trigger] fc(x, y) == tc(x, y) by {
                assert(bp_c@[x]@[y] as int == comp_bp(s, base, m as int, x, y));
            }
            lemma_tree_arcs_agree(fi, fc, ti, tc, n as int, 0, n - 1, true);
            assert forall|x: int, y: int| 0 <= x < n && 0 <= y < n && x != y implies incomplete_split_ok(x, y, #[trigger] ti(x, y)) by {
                assert(fi(x, y) == ti(x, y));
            }
            assert forall|x: int, y: int| 0 <= x < n && 0 <= y < n && x != y implies complete_split_ok(x, y, #[trigger] tc(x, y)) by {
                assert(fc(x, y) == tc(x, y));
            }
        }
        backtrack(&bp_i, &bp_c, 0, n - 1, true, &mut b_head, remove_root);
        assert(b_head@ =~= eisner_heads(s, base, m as int, n as int, remove_root as int));
        res.push(b_head);
        b = b + 1;
    }
    res
}

/// The decoded arcs form a projective tree: every position but the root has exactly one
/// head, inside the sentence and not itself; the root has none; no two arcs cross. A
/// sentence of one word (two positions with the root) attaches that word to the root.
pub proof fn lemma_eisner_projective_tree(s: Seq<i64>, base: int, m: int, n: int)
    requires
        1 <= n,
    ensures
        forall|d: int| #[trigger] eisner_arcs(s, base, m, n).dom().contains(d) <==> 1 <= d < n,
        forall|d: int|
            #[trigger] eisner_arcs(s, base, m, n).dom().contains(d) ==> 0 <= eisner_arcs(s, base, m, n)[d] < n
                && eisner_arcs(s, base, m, n)[d] != d,
        forall|d1: int, d2: int|
            #[trigger] eisner_arcs(s, base, m, n).dom().contains(d1) && #[trigger] eisner_arcs(s, base, m, n).dom().contains(d2)
                ==> !crossing(eisner_arcs(s, base, m, n)[d1], d1, eisner_arcs(s, base, m, n)[d2], d2),
        n == 2 ==> eisner_arcs(s, base, m, n)[1] == 0,
{
    lemma_spec_backpointers(s, base, m, n);
    lemma_tree_arcs(inc_bp_fn(s, base, m), comp_bp_fn(s, base, m), 0, n - 1, true);
    if n == 2 {
        assert(eisner_arcs(s, base, m, n).dom().contains(1));
    }
}

/// Two score blocks give the same arc scores among positions `0..n`.
pub open spec fn same_block(s1: Seq<i64>, b1: int, m1: int, s2: Seq<i64>, b2: int, m2: int, n: int) -> bool {
    forall|h: int, d: int| 0 <= h < n && 0 <= d < n ==> #[trigger] arc_score(s1, b1, m1, h, d) == arc_score(s2, b2, m2, h, d)
}

proof fn lemma_recurrences_agree(
    s1: Seq<i64>,
    b1: int,
    m1: int,
    s2: Seq<i64>,
    b2: int,
    m2: int,
    n: int,
    h: int,
    e: int,
    k: int,
    kind: int,
)
    requires
        same_block(s1, b1, m1, s2, b2, m2, n),
        0 <= h < n,
        0 <= e < n,
        0 <= kind <= 3,
    ensures
        kind == 0 ==> inc_fold(s1, b1, m1, h, e, k) == inc_fold(s2, b2, m2, h, e, k),
        kind == 1 ==> inc_val(s1, b1, m1, h, e) == inc_val(s2, b2, m2, h, e),
        kind == 2 ==> comp_fold(s1, b1, m1, h, e, k) == comp_fold(s2, b2, m2, h, e, k),
        kind == 3 ==> comp_val(s1, b1, m1, h, e) == comp_val(s2, b2, m2, h, e),
    decreases dist(h, e), kind, if kind == 0 && lo(h, e) < k {
        k - lo(h, e)
    } else if kind == 2 && comp_first(h, e) < k {
        k - comp_first(h, e)
    } else {
        0
    },
{
    if kind == 0 {
        if lo(h, e) < k && k <= hi(h, e) {
            let r = k - 1;
            lemma_recurrences_agree(s1, b1, m1, s2, b2, m2, n, h, e, k - 1, 0);
            lemma_recurrences_agree(s1, b1, m1, s2, b2, m2, n, lo(h, e), r, 0, 3);
            lemma_recurrences_agree(s1, b1, m1, s2, b2, m2, n, hi(h, e), r + 1, 0, 3);
            assert(arc_score(s1, b1, m1, h, e) == arc_score(s2, b2, m2, h, e));
        }
    } else if kind == 1 {
        if h != e {
            lemma_recurrences_agree(s1, b1, m1, s2, b2, m2, n, h, e, hi(h, e), 0);
        }
    } else if kind == 2 {
        if comp_first(h, e) < k && k <= comp_last(h, e) {
            let r = k - 1;
            lemma_recurrences_agree(s1, b1, m1, s2, b2, m2, n, h, e, k - 1, 2);
            lemma_recurrences_agree(s1, b1, m1, s2, b2, m2, n, h, r, 0, 1);
            lemma_recurrences_agree(s1, b1, m1, s2, b2, m2, n, r, e, 0, 3);
        }
    } else {
        if h != e && h != 0 {
            lemma_recurrences_agree(s1, b1, m1, s2, b2, m2, n, h, e, comp_last(h, e), 2);
        }
    }
}

/// A sentence's tree depends on its own scores alone: two blocks that agree on the arcs
/// among its `n` positions give the same tree, whatever the width of their rows and wherever
/// they start. Padding a sentence into a wider batch leaves its tree as it is.
pub proof fn lemma_eisner_padding(s1: Seq<i64>, b1: int, m1: int, s2: Seq<i64>, b2: int, m2: int, n: int, shift: int)
    requires
        same_block(s1, b1, m1, s2, b2, m2, n),
        1 <= n,
    ensures
        eisner_arcs(s1, b1, m1, n) == eisner_arcs(s2, b2, m2, n),
        eisner_heads(s1, b1, m1, n, shift) == eisner_heads(s2, b2, m2, n, shift),
{
    let pa = inc_bp_fn(s1, b1, m1);
    let ca = comp_bp_fn(s1, b1, m1);
    let pb = inc_bp_fn(s2, b2, m2);
    let cb = comp_bp_fn(s2, b2, m2);
    lemma_spec_backpointers(s1, b1, m1, n);
    assert forall|a: int, b: int| 0 <= a < n && 0 <= b < n && a != b implies #[trigger] pa(a, b) == pb(a, b) by {
        lemma_recurrences_agree(s1, b1, m1, s2, b2, m2, n, a, b, hi(a, b), 0);
    }
    assert forall|a: int, b: int| 0 <= a < n && 0 <= b < n && a != b implies #[trigger] ca(a, b) == cb(a, b) by {
        lemma_recurrences_agree(s1, b1, m1, s2, b2, m2, n, a, b, comp_last(a, b), 2);
    }
    lemma_tree_arcs_agree(pa, ca, pb, cb, n, 0, n - 1, true);
    assert(eisner_heads(s1, b1, m1, n, shift) =~= eisner_heads(s2, b2, m2, n, shift));
}

/// Decoding is deterministic: two results that both meet the decoder's contract on the same
/// input are equal, sentence by sentence.
pub proof fn lemma_eisner_deterministic(scores: Seq<i64>, lens: Seq<usize>, shift: int, r1: Seq<Vec<usize>>, r2: Seq<Vec<usize>>)
    requires
        r1.len() == lens.len(),
        r2.len() == lens.len(),
        forall|b: int| 0 <= b < lens.len() ==> #[trigger] r1[b]@ == eisner_heads(
            scores,
            b * (max_len(lens) * max_len(lens)),
            max_len(lens),
            lens[b] as int,
            shift,
        ),
        forall|b: int| 0 <= b < lens.len() ==> #[trigger] r2[b]@ == eisner_heads(
            scores,
            b * (max_len(lens) * max_len(lens)),
            max_len(lens),
            lens[b] as int,
            shift,
        ),
    ensures
        forall|b: int| 0 <= b < lens.len() ==> #[trigger] r1[b]@ == r2[b]@,
{
    assert forall|b: int| 0 <= b < lens.len() implies #[trigger] r1[b]@ == r2[b]@ by {
        assert(r1[b]@ == eisner_heads(scores, b * (max_len(lens) * max_len(lens)), max_len(lens), lens[b] as int, shift));
        assert(r2[b]@ == eisner_heads(scores, b * (max_len(lens) * max_len(lens)), max_len(lens), lens[b] as int, shift));
    }
}

/// Depth of position `d` in the tree that the backtrace reads off the span from `i` to `j`:
/// 0 for the span's head `i`, one more than its head's depth for every other position.
pub open spec fn tree_depth(p_i: spec_fn(int, int) -> int, p_c: spec_fn(int, int) -> int, i: int, j: int, complete: bool, d: int) -> int
    decreases dist(i, j), if complete { 1int } else { 0int },
{
    if i == j || d == i {
        0
    } else if complete {
        let r = p_c(i, j);
        if complete_split_ok(i, j, r) {
            if lo(i, r) <= d <= hi(i, r) {
                tree_depth(p_i, p_c, i, r, false, d)
            } else {
                tree_depth(p_i, p_c, i, r, false, r) + tree_depth(p_i, p_c, r, j, true, d)
            }
        } else {
            0
        }
    } else {
        let r = p_i(i, j);
        if incomplete_split_ok(i, j, r) {
            let a = lo(i, j);
            let b = hi(i, j);
            if d <= r {
                if a == i {
                    tree_depth(p_i, p_c, a, r, true, d)
                } else {
                    1 + tree_depth(p_i, p_c, a, r, true, d)
                }
            } else {
                if b == i {
                    tree_depth(p_i, p_c, b, r + 1, true, d)
                } else {
                    1 + tree_depth(p_i, p_c, b, r + 1, true, d)
                }
            }
        } else {
            0
        }
    }
}

proof fn lemma_tree_depth(p_i: spec_fn(int, int) -> int, p_c: spec_fn(int, int) -> int, i: int, j: int, complete: bool)
    requires
        valid_backpointers_on(p_i, p_c, lo(i, j), hi(i, j)),
    ensures
        tree_depth(p_i, p_c, i, j, complete, i) == 0,
        forall|d: int|
            #[trigger] tree_arcs(p_i, p_c, i, j, complete).dom().contains(d) ==> tree_depth(p_i, p_c, i, j, complete, d)
                == tree_depth(p_i, p_c, i, j, complete, tree_arcs(p_i, p_c, i, j, complete)[d]) + 1,
    decreases dist(i, j), if complete { 1int } else { 0int },
{
    let m = tree_arcs(p_i, p_c, i, j, complete);
    lemma_tree_arcs(p_i, p_c, i, j, complete);
    if i == j {
    } else if complete {
        let r = p_c(i, j);
        lemma_tree_arcs(p_i, p_c, i, r, false);
        lemma_tree_arcs(p_i, p_c, r, j, true);
        lemma_tree_depth(p_i, p_c, i, r, false);
        lemma_tree_depth(p_i, p_c, r, j, true);
        let m1 = tree_arcs(p_i, p_c, i, r, false);
        let m2 = tree_arcs(p_i, p_c, r, j, true);
        assert forall|d: int| #[trigger] m.dom().contains(d) implies tree_depth(p_i, p_c, i, j, complete, d)
            == tree_depth(p_i, p_c, i, j, complete, m[d]) + 1 by {
            if m2.dom().contains(d) {
                assert(m[d] == m2[d]);
            } else {
                assert(m1.dom().contains(d));
                assert(m[d] == m1[d]);
            }
        }
    } else {
        let r = p_i(i, j);
        let a = lo(i, j);
        let b = hi(i, j);
        lemma_tree_arcs(p_i, p_c, a, r, true);
        lemma_tree_arcs(p_i, p_c, b, r + 1, true);
        lemma_tree_depth(p_i, p_c, a, r, true);
        lemma_tree_depth(p_i, p_c, b, r + 1, true);
        let m1 = tree_arcs(p_i, p_c, a, r, true);
        let m2 = tree_arcs(p_i, p_c, b, r + 1, true);
        assert forall|d: int| #[trigger] m.dom().contains(d) implies tree_depth(p_i, p_c, i, j, complete, d)
            == tree_depth(p_i, p_c, i, j, complete, m[d]) + 1 by {
            if d == j {
            } else if m2.dom().contains(d) {
                assert(m[d] == m2[d]);
            } else {
                assert(m1.dom().contains(d));
                assert(m[d] == m1[d]);
            }
        }
    }
}

proof fn lemma_tree_depth_nonneg(p_i: spec_fn(int, int) -> int, p_c: spec_fn(int, int) -> int, i: int, j: int, complete: bool, d: int)
    ensures
        tree_depth(p_i, p_c, i, j, complete, d) >= 0,
    decreases dist(i, j), if complete { 1int } else { 0int },
{
    if i == j || d == i {
    } else if complete {
        let r = p_c(i, j);
        if complete_split_ok(i, j, r) {
            lemma_tree_depth_nonneg(p_i, p_c, i, r, false, d);
            lemma_tree_depth_nonneg(p_i, p_c, i, r, false, r);
            lemma_tree_depth_nonneg(p_i, p_c, r, j, true, d);
        }
    } else {
        let r = p_i(i, j);
        if incomplete_split_ok(i, j, r) {
            lemma_tree_depth_nonneg(p_i, p_c, lo(i, j), r, true, d);
            lemma_tree_depth_nonneg(p_i, p_c, hi(i, j), r + 1, true, d);
        }
    }
}

/// Depth of position `d` in the decoded tree of a sentence of length `n`.
pub open spec fn eisner_depth(s: Seq<i64>, base: int, m: int, n: int, d: int) -> int {
    tree_depth(inc_bp_fn(s, base, m), comp_bp_fn(s, base, m), 0, n - 1, true, d)
}

/// The decoded arcs have no cycle: the root has depth 0 and every word lies one level
/// below its head, so following heads from any word reaches the root in as many steps as
/// its depth.
pub proof fn lemma_eisner_rooted(s: Seq<i64>, base: int, m: int, n: int)
    requires
        1 <= n,
    ensures
        eisner_depth(s, base, m, n, 0) == 0,
        forall|d: int| 0 <= d < n ==> #[trigger] eisner_depth(s, base, m, n, d) >= 0,
        forall|d: int|
            1 <= d < n ==> #[trigger] eisner_depth(s, base, m, n, d) == eisner_depth(s, base, m, n, eisner_arcs(s, base, m, n)[d])
                + 1,
{
    lemma_spec_backpointers(s, base, m, n);
    lemma_tree_arcs(inc_bp_fn(s, base, m), comp_bp_fn(s, base, m), 0, n - 1, true);
    lemma_tree_depth(inc_bp_fn(s, base, m), comp_bp_fn(s, base, m), 0, n - 1, true);
    assert forall|d: int| 0 <= d < n implies #[trigger] eisner_depth(s, base, m, n, d) >= 0 by {
        lemma_tree_depth_nonneg(inc_bp_fn(s, base, m), comp_bp_fn(s, base, m), 0, n - 1, true, d);
    }
    assert forall|d: int| 1 <= d < n implies #[trigger] eisner_depth(s, base, m, n, d) == eisner_depth(
        s,
        base,
        m,
        n,
        eisner_arcs(s, base, m, n)[d],
    ) + 1 by {
        assert(eisner_arcs(s, base, m, n).dom().contains(d));
    }
}

} // verus!

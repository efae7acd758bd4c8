use vstd::prelude::*;

use crate::interface::{el2, rank2, LTPError, Tensor};

verus! {

/// The four input tensors of the scoring engine, `[sentences, tokens]` each, with every
/// sentence's token count without its start and end markers.
#[derive(Debug, Clone, PartialEq)]
pub struct PackedBatch {
    pub input_ids: Tensor,
    pub token_type_ids: Tensor,
    pub attention_mask: Tensor,
    pub position_ids: Tensor,
    pub lengths: Vec<usize>,
}

pub open spec fn mask_sum(m: Seq<u32>) -> int
    decreases m.len(),
{
    if m.len() == 0 {
        0
    } else {
        mask_sum(m.drop_last()) + m.last() as int
    }
}

/// Width of the batch: the token count of its first sentence, 0 for no sentence.
pub open spec fn batch_width(ids: Seq<Vec<u32>>) -> int {
    if ids.len() == 0 { 0 } else { ids[0]@.len() as int }
}

/// The token rows of the batch can be packed: the three lists hold the same sentences,
/// every row is as wide as the batch, and every mask counts both markers.
pub open spec fn pack_ok(ids: Seq<Vec<u32>>, type_ids: Seq<Vec<u32>>, masks: Seq<Vec<u32>>) -> bool {
    let w = batch_width(ids);
    &&& type_ids.len() == ids.len()
    &&& masks.len() == ids.len()
    &&& ids.len() * w <= usize::MAX
    &&& forall|i: int| 0 <= i < ids.len() ==> #[trigger] ids[i]@.len() == w
    &&& forall|i: int| 0 <= i < ids.len() ==> #[trigger] type_ids[i]@.len() == w
    &&& forall|i: int| 0 <= i < ids.len() ==> #[trigger] masks[i]@.len() == w
    &&& forall|i: int| 0 <= i < ids.len() ==> 2 <= #[trigger] mask_sum(masks[i]@) <= usize::MAX
}

/// `t` is the `[rows, w]` tensor holding `rows` row after row.
pub open spec fn packed_from(t: Tensor, rows: Seq<Vec<u32>>, w: int) -> bool {
    &&& rank2(t)
    &&& t.shape@[0] == rows.len()
    &&& t.shape@[1] == w
    &&& forall|i: int, c: int| 0 <= i < rows.len() && 0 <= c < w ==> #[trigger] el2(t, i, c) == rows[i]@[c] as i64
}

fn flatten(rows: &Vec<Vec<u32>>, w: usize) -> (r: Tensor)
    requires
        rows@.len() * w <= usize::MAX,
        forall|i: int| 0 <= i < rows@.len() ==> #[trigger] rows@[i]@.len() == w,
    ensures
        packed_from(r, rows@, w as int),
{
    let n = rows.len();
    let mut data: Vec<i64> = Vec::new();
    let mut i: usize = 0;
    while i < n
        invariant
            n == rows@.len(),
            n * w <= usize::MAX,
            forall|k: int| 0 <= k < n ==> #[trigger] rows@[k]@.len() == w,
            i <= n,
            data@.len() == i * w,
            forall|k: int, c: int| 0 <= k < i && 0 <= c < w ==> data@[k * w + c] == #[trigger] rows@[k]@[c] as i64,
        decreases n - i,
    {
        assert(i * w + w <= n * w) by (nonlinear_arith)
            requires i < n;
        let mut c: usize = 0;
        while c < w
            invariant
                n == rows@.len(),
                i < n,
                rows@[i as int]@.len() == w,
                i * w + w <= n * w,
                n * w <= usize::MAX,
                c <= w,
                data@.len() == i * w + c,
                forall|k: int, c2: int| 0 <= k < i && 0 <= c2 < w ==> data@[k * w + c2] == #[trigger] rows@[k]@[c2] as i64,
                forall|c2: int| 0 <= c2 < c ==> data@[i * w + c2] == #[trigger] rows@[i as int]@[c2] as i64,
            decreases w - c,
        {
            let ghost before = data@;
            data.push(rows[i][c] as i64);
            assert forall|k: int, c2: int| 0 <= k < i && 0 <= c2 < w implies data@[k * w + c2] == #[trigger] rows@[k]@[c2] as i64 by {
                assert(k * w + c2 < i * w) by (nonlinear_arith)
                    requires k < i, c2 < w, 0 <= k, 0 <= c2;
                assert(0 <= k * w) by (nonlinear_arith)
                    requires 0 <= k, 0 <= w;
                assert(data@[k * w + c2] == before[k * w + c2]);
            }
            c = c + 1;
        }
        assert forall|k: int, c2: int| 0 <= k < i + 1 && 0 <= c2 < w implies data@[k * w + c2] == #[trigger] rows@[k]@[c2] as i64 by {
            if k == i {
            }
        }
        assert((i + 1) * w == i * w + w) by (nonlinear_arith);
        i = i + 1;
    }
    let mut shape: Vec<usize> = Vec::new();
    shape.push(n);
    shape.push(w);
    let t = Tensor { data, shape };
    assert(rank2(t));
    assert forall|k: int, c: int| 0 <= k < n && 0 <= c < w implies #[trigger] el2(t, k, c) == rows@[k]@[c] as i64 by {
        assert(t.shape@[1] == w);
    }
    t
}

/// The `[n, w]` tensor whose every row counts `0..w`.
pub open spec fn positions_of(t: Tensor, n: int, w: int) -> bool {
    &&& rank2(t)
    &&& t.shape@[0] == n
    &&& t.shape@[1] == w
    &&& forall|i: int, c: int| 0 <= i < n && 0 <= c < w ==> #[trigger] el2(t, i, c) == c as i64
}

fn positions(n: usize, w: usize) -> (r: Tensor)
    requires
        n * w <= usize::MAX,
    ensures
        positions_of(r, n as int, w as int),
{
    let mut data: Vec<i64> = Vec::new();
    let mut i: usize = 0;
    while i < n
        invariant
            n * w <= usize::MAX,
            i <= n,
            data@.len() == i * w,
            forall|k: int, c: int| 0 <= k < i && 0 <= c < w ==> #[trigger] data@[k * w + c] == c as i64,
        decreases n - i,
    {
        assert(i * w + w <= n * w) by (nonlinear_arith)
            requires i < n;
        let mut c: usize = 0;
        while c < w
            invariant
                n * w <= usize::MAX,
                i < n,
                i * w + w <= n * w,
                c <= w,
                data@.len() == i * w + c,
                forall|k: int, c2: int| 0 <= k < i && 0 <= c2 < w ==> #[trigger] data@[k * w + c2] == c2 as i64,
                forall|c2: int| 0 <= c2 < c ==> #[trigger] data@[i * w + c2] == c2 as i64,
            decreases w - c,
        {
            let ghost before = data@;
            data.push(c as i64);
            assert forall|k: int, c2: int| 0 <= k < i && 0 <= c2 < w implies #[trigger] data@[k * w + c2] == c2 as i64 by {
                assert(k * w + c2 < i * w) by (nonlinear_arith)
                    requires k < i, c2 < w, 0 <= k, 0 <= c2;
                assert(0 <= k * w) by (nonlinear_arith)
                    requires 0 <= k, 0 <= w;
                assert(data@[k * w + c2] == before[k * w + c2]);
            }
            c = c + 1;
        }
        assert((i + 1) * w == i * w + w) by (nonlinear_arith);
        i = i + 1;
    }
    let mut shape: Vec<usize> = Vec::new();
    shape.push(n);
    shape.push(w);
    let t = Tensor { data, shape };
    assert forall|k: int, c: int| 0 <= k < n && 0 <= c < w implies #[trigger] el2(t, k, c) == c as i64 by {
        assert(t.shape@[1] == w);
    }
    t
}

/// Sum of a mask row, or `None` when it does not fit a `usize`.
fn sum_mask(m: &Vec<u32>) -> (r: Option<usize>)
    ensures
        r matches Some(x) ==> x as int == mask_sum(m@),
        r is None ==> mask_sum(m@) > usize::MAX,
{
    let mut total: usize = 0;
    let mut k: usize = 0;
    while k < m.len()
        invariant
            k <= m@.len(),
            total as int == mask_sum(m@.subrange(0, k as int)),
        decreases m@.len() - k,
    {
        assert(m@.subrange(0, k + 1).drop_last() =~= m@.subrange(0, k as int));
        match total.checked_add(m[k] as usize) {
            Some(t) => {
                total = t;
            },
            None => {
                proof {
                    lemma_mask_sum_prefix(m@, k + 1);
                }
                return None;
            },
        }
        k = k + 1;
    }
    assert(m@.subrange(0, k as int) =~= m@);
    Some(total)
}

proof fn lemma_mask_sum_prefix(m: Seq<u32>, k: int)
    requires
        0 <= k <= m.len(),
    ensures
        mask_sum(m.subrange(0, k)) <= mask_sum(m),
    decreases m.len() - k,
{
    if k < m.len() {
        lemma_mask_sum_prefix(m, k + 1);
        assert(m.subrange(0, k + 1).drop_last() =~= m.subrange(0, k));
    } else {
        assert(m.subrange(0, k) =~= m);
    }
}

/// Packs the tokenizer's rows into the scoring engine's four `[sentences, tokens]` tensors
/// (ids, type ids, attention mask, position ids) and computes each sentence's token count
/// without its start and end markers: the sum of its mask, less two.
pub fn pack_batch(ids: &Vec<Vec<u32>>, type_ids: &Vec<Vec<u32>>, masks: &Vec<Vec<u32>>) -> (r: Result<PackedBatch, LTPError>)
    ensures
        r is Ok <==> pack_ok(ids@, type_ids@, masks@),
        r is Err ==> r->Err_0 is ShapeError,
        r matches Ok(p) ==> {
            let w = batch_width(ids@);
            &&& packed_from(p.input_ids, ids@, w)
            &&& packed_from(p.token_type_ids, type_ids@, w)
            &&& packed_from(p.attention_mask, masks@, w)
            &&& positions_of(p.position_ids, ids@.len() as int, w)
            &&& p.lengths@.len() == ids@.len()
            &&& forall|i: int| 0 <= i < ids@.len() ==> #[trigger] p.lengths@[i] == mask_sum(masks@[i]@) - 2
        },
{
    let n = ids.len();
    if type_ids.len() != n || masks.len() != n {
        return Err(LTPError::ShapeError(String::from_str("token rows of different batch sizes")));
    }
    let w = if n == 0 { 0 } else { ids[0].len() };
    match n.checked_mul(w) {
        Some(_) => {},
        None => {
            return Err(LTPError::ShapeError(String::from_str("batch too large")));
        },
    }
    let mut lengths: Vec<usize> = Vec::new();
    let mut i: usize = 0;
    while i < n
        invariant
            n == ids@.len(),
            type_ids@.len() == n,
            masks@.len() == n,
            w == batch_width(ids@),
            i <= n,
            lengths@.len() == i,
            forall|k: int| 0 <= k < i ==> #[trigger] ids@[k]@.len() == w,
            forall|k: int| 0 <= k < i ==> #[trigger] type_ids@[k]@.len() == w,
            forall|k: int| 0 <= k < i ==> #[trigger] masks@[k]@.len() == w,
            forall|k: int| 0 <= k < i ==> 2 <= #[trigger] mask_sum(masks@[k]@) <= usize::MAX,
            forall|k: int| 0 <= k < i ==> #[trigger] lengths@[k] == mask_sum(masks@[k]@) - 2,
        decreases n - i,
    {
        if ids[i].len() != w || type_ids[i].len() != w || masks[i].len() != w {
            return Err(LTPError::ShapeError(String::from_str("token rows of different widths")));
        }
        match sum_mask(&masks[i]) {
            Some(total) => {
                if total < 2 {
                    return Err(LTPError::ShapeError(String::from_str("attention mask without both markers")));
                }
                lengths.push(total - 2);
            },
            None => {
                return Err(LTPError::ShapeError(String::from_str("attention mask too long")));
            },
        }
        i = i + 1;
    }
    Ok(PackedBatch {
        input_ids: flatten(ids, w),
        token_type_ids: flatten(type_ids, w),
        attention_mask: flatten(masks, w),
        position_ids: positions(n, w),
        lengths,
    })
}

} // verus!

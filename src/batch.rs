use vstd::prelude::*;

verus! {

/// Largest of the lengths, or 0 when there are none.
pub open spec fn max_len(lens: Seq<usize>) -> int
    decreases lens.len(),
{
    if lens.len() == 0 {
        0
    } else {
        let rest = max_len(lens.drop_last());
        if lens.last() as int > rest {
            lens.last() as int
        } else {
            rest
        }
    }
}

/// Sum of the lengths: each sentence of length `n` holds `n` label sequences.
pub open spec fn total_len(lens: Seq<usize>) -> int
    decreases lens.len(),
{
    if lens.len() == 0 {
        0
    } else {
        total_len(lens.drop_last()) + lens.last() as int
    }
}

/// Index, among all sequences, of the first sequence of sentence `s`.
pub open spec fn first_seq(lens: Seq<usize>, s: int) -> int {
    total_len(lens.subrange(0, s))
}

pub proof fn lemma_max_bounds(lens: Seq<usize>)
    ensures
        forall|s: int| 0 <= s < lens.len() ==> lens[s] as int <= #[trigger] max_len(lens),
        0 <= max_len(lens) <= total_len(lens),
        total_len(lens) >= 0,
    decreases lens.len(),
{
    if lens.len() > 0 {
        let init = lens.drop_last();
        lemma_max_bounds(init);
        assert forall|s: int| 0 <= s < lens.len() implies lens[s] as int <= #[trigger] max_len(lens) by {
            if s < init.len() {
                assert(init[s] == lens[s]);
            }
        }
    }
}

pub proof fn lemma_prefix_total(lens: Seq<usize>, s: int)
    requires
        0 <= s < lens.len(),
    ensures
        first_seq(lens, s + 1) == first_seq(lens, s) + lens[s],
        first_seq(lens, s + 1) <= total_len(lens),
        first_seq(lens, s) >= 0,
    decreases lens.len() - s,
{
    assert(lens.subrange(0, s + 1).drop_last() =~= lens.subrange(0, s));
    lemma_max_bounds(lens.subrange(0, s));
    if s + 1 < lens.len() {
        lemma_prefix_total(lens, s + 1);
    } else {
        assert(lens.subrange(0, s + 1) =~= lens);
    }
}

pub proof fn lemma_first_seq_mono(lens: Seq<usize>, a: int, b: int)
    requires
        0 <= a <= b <= lens.len(),
    ensures
        first_seq(lens, a) <= first_seq(lens, b),
    decreases b - a,
{
    if a < b {
        lemma_prefix_total(lens, b - 1);
        lemma_first_seq_mono(lens, a, b - 1);
    }
}

pub proof fn lemma_max_at_most(lens: Seq<usize>, bound: int)
    requires
        0 <= bound,
        forall|s: int| 0 <= s < lens.len() ==> #[trigger] lens[s] <= bound,
    ensures
        max_len(lens) <= bound,
    decreases lens.len(),
{
    if lens.len() > 0 {
        let init = lens.drop_last();
        assert forall|s: int| 0 <= s < init.len() implies #[trigger] init[s] <= bound by {
            assert(init[s] == lens[s]);
        }
        lemma_max_at_most(init, bound);
    }
}

} // verus!

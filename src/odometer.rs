//! The state of a counter with one digit per chain: digit `i` is 0 when chain `i` has no
//! selection and `k + 1` when its element `k` is selected, so it runs from 0 to the chain's
//! length. The states are numbered in mixed radix, the last digit varying fastest.
use vstd::arithmetic::div_mod::lemma_fundamental_div_mod_converse;
use vstd::prelude::*;

verus! {

/// The digit that a selection stands for.
pub open spec fn digit(o: Option<usize>) -> int {
    match o {
        Some(k) => k + 1,
        None => 0,
    }
}

/// The selection that a digit stands for.
pub open spec fn selection(d: int) -> Option<usize> {
    if d == 0 {
        None
    } else {
        Some((d - 1) as usize)
    }
}

/// Every digit of `ix` is at most the length of its chain.
pub open spec fn digits_valid(lens: Seq<int>, ix: Seq<Option<usize>>) -> bool {
    &&& ix.len() == lens.len()
    &&& forall|i: int| 0 <= i < ix.len() ==> 0 <= #[trigger] digit(ix[i]) <= lens[i]
}

/// The number of states of the digits in `[lo, hi)`: the product of the chain lengths plus one.
pub open spec fn total_range(lens: Seq<int>, lo: int, hi: int) -> int
    decreases hi - lo,
{
    if hi <= lo {
        1
    } else {
        total_range(lens, lo, hi - 1) * (lens[hi - 1] + 1)
    }
}

/// The number of states of the whole counter.
pub open spec fn state_count(lens: Seq<int>) -> int {
    total_range(lens, 0, lens.len() as int)
}

/// The number of the state that the digits in `[lo, hi)` form.
pub open spec fn rank_range(lens: Seq<int>, ix: Seq<Option<usize>>, lo: int, hi: int) -> int
    decreases hi - lo,
{
    if hi <= lo {
        0
    } else {
        rank_range(lens, ix, lo, hi - 1) * (lens[hi - 1] + 1) + digit(ix[hi - 1])
    }
}

/// The number of the state `ix`.
pub open spec fn rank(lens: Seq<int>, ix: Seq<Option<usize>>) -> int {
    rank_range(lens, ix, 0, lens.len() as int)
}

/// The first `hi` digits of the state numbered `q`.
pub open spec fn state_at(lens: Seq<int>, q: int, hi: int) -> Seq<Option<usize>>
    decreases hi,
{
    if hi <= 0 {
        Seq::empty()
    } else {
        let r = lens[hi - 1] + 1;
        state_at(lens, q / r, hi - 1).push(selection(q % r))
    }
}

/// Every chain length is one that a `Vec` can have.
pub open spec fn lens_valid(lens: Seq<int>) -> bool {
    forall|i: int| 0 <= i < lens.len() ==> 0 <= #[trigger] lens[i] <= usize::MAX
}

/// Every count of states is at least one.
pub proof fn lemma_total_positive(lens: Seq<int>, lo: int, hi: int)
    requires
        lens_valid(lens),
        0 <= lo,
        hi <= lens.len(),
    ensures
        total_range(lens, lo, hi) >= 1,
    decreases hi - lo,
{
    if hi > lo {
        lemma_total_positive(lens, lo, hi - 1);
        let t = total_range(lens, lo, hi - 1);
        let r = lens[hi - 1] + 1;
        assert(t * r >= 1) by (nonlinear_arith)
            requires
                t >= 1,
                r >= 1,
        ;
    }
}

/// A state's number lies in `[0, total)`.
pub proof fn lemma_rank_bounds(lens: Seq<int>, ix: Seq<Option<usize>>, lo: int, hi: int)
    requires
        lens_valid(lens),
        digits_valid(lens, ix),
        0 <= lo,
        hi <= lens.len(),
    ensures
        0 <= rank_range(lens, ix, lo, hi) < total_range(lens, lo, hi),
    decreases hi - lo,
{
    if hi > lo {
        lemma_rank_bounds(lens, ix, lo, hi - 1);
        let q = rank_range(lens, ix, lo, hi - 1);
        let t = total_range(lens, lo, hi - 1);
        let r = lens[hi - 1] + 1;
        let d = digit(ix[hi - 1]);
        assert(0 <= q * r + d < t * r) by (nonlinear_arith)
            requires
                0 <= q < t,
                0 <= d < r,
        ;
    }
}

/// Digits that agree on `[lo, hi)` have the same number there.
pub proof fn lemma_rank_agree(
    lens: Seq<int>,
    a: Seq<Option<usize>>,
    b: Seq<Option<usize>>,
    lo: int,
    hi: int,
)
    requires
        forall|i: int| lo <= i < hi ==> a[i] == b[i],
    ensures
        rank_range(lens, a, lo, hi) == rank_range(lens, b, lo, hi),
    decreases hi - lo,
{
    if hi > lo {
        lemma_rank_agree(lens, a, b, lo, hi - 1);
    }
}

/// A number splits into a high part and a low part at any position.
pub proof fn lemma_rank_split(lens: Seq<int>, ix: Seq<Option<usize>>, lo: int, mid: int, hi: int)
    requires
        lo <= mid <= hi,
    ensures
        rank_range(lens, ix, lo, hi) == rank_range(lens, ix, lo, mid) * total_range(lens, mid, hi)
            + rank_range(lens, ix, mid, hi),
    decreases hi - mid,
{
    if hi > mid {
        lemma_rank_split(lens, ix, lo, mid, hi - 1);
        let a = rank_range(lens, ix, lo, mid);
        let t = total_range(lens, mid, hi - 1);
        let b = rank_range(lens, ix, mid, hi - 1);
        let r = lens[hi - 1] + 1;
        let d = digit(ix[hi - 1]);
        assert((a * t + b) * r + d == a * (t * r) + (b * r + d)) by (nonlinear_arith);
    }
}

/// Digits that are all at their largest number one less than the count of states.
pub proof fn lemma_rank_all_last(lens: Seq<int>, ix: Seq<Option<usize>>, lo: int, hi: int)
    requires
        forall|i: int| lo <= i < hi ==> #[trigger] digit(ix[i]) == lens[i],
    ensures
        rank_range(lens, ix, lo, hi) == total_range(lens, lo, hi) - 1,
    decreases hi - lo,
{
    if hi > lo {
        lemma_rank_all_last(lens, ix, lo, hi - 1);
        let t = total_range(lens, lo, hi - 1);
        let r = lens[hi - 1] + 1;
        assert(digit(ix[hi - 1]) == lens[hi - 1]);
        assert((t - 1) * r + (r - 1) == t * r - 1) by (nonlinear_arith);
    }
}

/// Digits that are all unselected number zero.
pub proof fn lemma_rank_all_none(lens: Seq<int>, ix: Seq<Option<usize>>, lo: int, hi: int)
    requires
        forall|i: int| lo <= i < hi ==> ix[i] is None,
    ensures
        rank_range(lens, ix, lo, hi) == 0,
    decreases hi - lo,
{
    if hi > lo {
        lemma_rank_all_none(lens, ix, lo, hi - 1);
    }
}

/// Numbering a state and reading the number back gives the state.
pub proof fn lemma_state_at_rank(lens: Seq<int>, ix: Seq<Option<usize>>, hi: int)
    requires
        lens_valid(lens),
        digits_valid(lens, ix),
        0 <= hi <= lens.len(),
    ensures
        state_at(lens, rank_range(lens, ix, 0, hi), hi) == ix.take(hi),
    decreases hi,
{
    if hi > 0 {
        lemma_state_at_rank(lens, ix, hi - 1);
        lemma_rank_bounds(lens, ix, 0, hi - 1);
        let q = rank_range(lens, ix, 0, hi - 1);
        let r = lens[hi - 1] + 1;
        let d = digit(ix[hi - 1]);
        lemma_fundamental_div_mod_converse(q * r + d, r, q, d);
        assert(selection(d) == ix[hi - 1]);
        assert(ix.take(hi - 1).push(ix[hi - 1]) =~= ix.take(hi));
    }
}

/// Reading a number in `[0, total)` as a state gives valid digits, and numbering them gives
/// the number back.
pub proof fn lemma_rank_state_at(lens: Seq<int>, q: int, hi: int)
    requires
        lens_valid(lens),
        0 <= hi <= lens.len(),
        0 <= q < total_range(lens, 0, hi),
    ensures
        state_at(lens, q, hi).len() == hi,
        forall|i: int| 0 <= i < hi ==> 0 <= #[trigger] digit(state_at(lens, q, hi)[i]) <= lens[i],
        rank_range(lens, state_at(lens, q, hi), 0, hi) == q,
    decreases hi,
{
    if hi > 0 {
        let r = lens[hi - 1] + 1;
        let t = total_range(lens, 0, hi - 1);
        lemma_total_positive(lens, 0, hi - 1);
        let q2 = q / r;
        let d = q % r;
        assert(q == r * q2 + d && 0 <= d < r) by {
            vstd::arithmetic::div_mod::lemma_fundamental_div_mod(q, r);
            vstd::arithmetic::div_mod::lemma_mod_bound(q, r);
        }
        assert(0 <= q2 < t) by (nonlinear_arith)
            requires
                q == r * q2 + d,
                0 <= d < r,
                0 <= q < t * r,
                r >= 1,
        ;
        lemma_rank_state_at(lens, q2, hi - 1);
        let s = state_at(lens, q, hi);
        let s2 = state_at(lens, q2, hi - 1);
        assert(s == s2.push(selection(d)));
        assert(digit(selection(d)) == d);
        lemma_rank_agree(lens, s, s2, 0, hi - 1);
        assert(q2 * r + d == q) by (nonlinear_arith)
            requires
                q == r * q2 + d,
        ;
    }
}

} // verus!

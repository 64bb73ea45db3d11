use crate::odometer::{
    digit, digits_valid, lemma_rank_all_last, lemma_rank_all_none, lemma_rank_agree,
    lemma_rank_bounds, lemma_rank_split, lemma_rank_state_at, lemma_state_at_rank,
    lemma_total_positive, lens_valid, rank, rank_range, state_at, state_count, total_range,
};
use crate::traits::{chain_values, deref_seq, PartialOrderBehaviour};
use vstd::prelude::*;

verus! {

/// The length of each chain.
pub open spec fn chain_lens<T>(chains: Seq<Seq<T>>) -> Seq<int> {
    chains.map_values(|c: Seq<T>| c.len() as int)
}

/// The elements that the first `hi` digits of `ix` select, in chain order.
pub open spec fn combination_upto<T>(chains: Seq<Seq<T>>, ix: Seq<Option<usize>>, hi: int) -> Seq<
    T,
>
    decreases hi,
{
    if hi <= 0 {
        Seq::empty()
    } else {
        let c = combination_upto(chains, ix, hi - 1);
        match ix[hi - 1] {
            Some(k) => c.push(chains[hi - 1][k as int]),
            None => c,
        }
    }
}

/// The elements that the state numbered `q` selects, in chain order.
pub open spec fn combination_at<T>(chains: Seq<Seq<T>>, q: int) -> Seq<T> {
    combination_upto(
        chains,
        state_at(chain_lens(chains), q, chains.len() as int),
        chains.len() as int,
    )
}

/// No two elements of `c` are comparable.
pub open spec fn is_antichain<P: PartialOrderBehaviour>(p: &P, c: Seq<P::Element>) -> bool {
    forall|a: int, b: int|
        0 <= a < b < c.len() ==> !p.spec_ge(#[trigger] c[a], #[trigger] c[b]) && !p.spec_ge(
            c[b],
            c[a],
        )
}

/// The state numbered `q` selects an antichain.
pub open spec fn is_antichain_at<P: PartialOrderBehaviour>(
    p: &P,
    chains: Seq<Seq<P::Element>>,
    q: int,
) -> bool {
    is_antichain(p, combination_at(chains, q))
}

/// The states numbered `q` in `[lo, hi)` select no antichain.
pub open spec fn none_between<P: PartialOrderBehaviour>(
    p: &P,
    chains: Seq<Seq<P::Element>>,
    lo: int,
    hi: int,
) -> bool {
    forall|q: int| lo <= q < hi ==> !#[trigger] is_antichain_at(p, chains, q)
}

/// The walk's states over chains of lengths `L_1..L_n` are numbered from 0 to the product of
/// the `L_i + 1`, excluded: each number in that range reads as one valid choice of at most one
/// element per chain, and each such choice has a number in that range that reads back as it.
pub proof fn lemma_state_space<T>(chains: Seq<Seq<T>>)
    requires
        lens_valid(chain_lens(chains)),
    ensures
        state_count(chain_lens(chains)) == total_range(chain_lens(chains), 0, chains.len() as int),
        forall|q: int|
            0 <= q < state_count(chain_lens(chains)) ==> digits_valid(
                chain_lens(chains),
                #[trigger] state_at(chain_lens(chains), q, chains.len() as int),
            ) && rank(chain_lens(chains), state_at(chain_lens(chains), q, chains.len() as int))
                == q,
        forall|ix: Seq<Option<usize>>|
            digits_valid(chain_lens(chains), ix) ==> 0 <= #[trigger] rank(chain_lens(chains), ix)
                < state_count(chain_lens(chains)) && state_at(
                chain_lens(chains),
                rank(chain_lens(chains), ix),
                chains.len() as int,
            ) == ix,
{
    let lens = chain_lens(chains);
    let n = chains.len() as int;
    assert forall|q: int| 0 <= q < state_count(lens) implies digits_valid(
        lens,
        #[trigger] state_at(lens, q, n),
    ) && rank(lens, state_at(lens, q, n)) == q by {
        lemma_rank_state_at(lens, q, n);
    }
    assert forall|ix: Seq<Option<usize>>| digits_valid(lens, ix) implies 0 <= #[trigger] rank(
        lens,
        ix,
    ) < state_count(lens) && state_at(lens, rank(lens, ix), n) == ix by {
        lemma_rank_bounds(lens, ix, 0, n);
        lemma_state_at_rank(lens, ix, n);
        assert(ix.take(n) =~= ix);
    }
}

proof fn lemma_state_zero(lens: Seq<int>, hi: int)
    requires
        lens_valid(lens),
        0 <= hi <= lens.len(),
    ensures
        state_at(lens, 0, hi).len() == hi,
        forall|i: int| 0 <= i < hi ==> #[trigger] state_at(lens, 0, hi)[i] is None,
    decreases hi,
{
    if hi > 0 {
        let r = lens[hi - 1] + 1;
        assert(0int / r == 0 && 0int % r == 0) by (nonlinear_arith)
            requires
                r >= 1,
        ;
        lemma_state_zero(lens, hi - 1);
    }
}

proof fn lemma_combination_none<T>(chains: Seq<Seq<T>>, ix: Seq<Option<usize>>, hi: int)
    requires
        forall|i: int| 0 <= i < hi ==> ix[i] is None,
    ensures
        combination_upto(chains, ix, hi) == Seq::<T>::empty(),
    decreases hi,
{
    if hi > 0 {
        lemma_combination_none(chains, ix, hi - 1);
    }
}

/// The walk's first state selects nothing, so the first antichain is the empty one.
pub proof fn lemma_first_antichain_empty<P: PartialOrderBehaviour>(
    p: &P,
    chains: Seq<Seq<P::Element>>,
)
    requires
        lens_valid(chain_lens(chains)),
    ensures
        combination_at(chains, 0) == Seq::<P::Element>::empty(),
        is_antichain_at(p, chains, 0),
{
    let lens = chain_lens(chains);
    let n = chains.len() as int;
    lemma_state_zero(lens, n);
    lemma_combination_none(chains, state_at(lens, 0, n), n);
}

/// An iterator over the antichains that a list of chains gives, taking at most one element of
/// each chain. It walks every choice of one element or none per chain, the last chain varying
/// fastest, and yields the choices whose elements are pairwise incomparable.
#[verifier::reject_recursive_types(T)]
pub struct AntichainIterator<'a, 'b, T, F> where F: PartialOrderBehaviour<Element = T> {
    vectors: Vec<Vec<&'a T>>,
    indices: Vec<Option<usize>>,
    finished: bool,
    p_ord: &'b F,
}

impl<'a, 'b, T, F> AntichainIterator<'a, 'b, T, F> where F: PartialOrderBehaviour<Element = T> {
    /// The chains, as values.
    pub closed spec fn chains(&self) -> Seq<Seq<T>> {
        chain_values(self.vectors@)
    }

    /// The partial order that decides incomparability.
    pub closed spec fn order(&self) -> &F {
        self.p_ord
    }

    /// The number of the next state to visit; the number of states once all were visited.
    pub closed spec fn position(&self) -> int {
        if self.finished {
            state_count(chain_lens(self.chains()))
        } else {
            rank(chain_lens(self.chains()), self.indices@)
        }
    }

    /// The iterator's fields agree with each other.
    pub closed spec fn wf(&self) -> bool {
        &&& lens_valid(chain_lens(self.chains()))
        &&& digits_valid(chain_lens(self.chains()), self.indices@)
    }

    proof fn lemma_lens(&self)
        ensures
            chain_lens(self.chains()).len() == self.vectors@.len(),
            forall|i: int|
                0 <= i < self.vectors@.len() ==> #[trigger] chain_lens(self.chains())[i]
                    == self.vectors@[i]@.len() && self.chains()[i].len() == self.vectors@[i]@.len(),
    {
    }

    /// Construct an iterator over the antichains that `vectors` give under `p_ord`.
    pub fn new(vectors: Vec<Vec<&'a T>>, p_ord: &'b F) -> (r: Self)
        ensures
            r.wf(),
            r.chains() == chain_values(vectors@),
            r.order() == p_ord,
            r.position() == 0,
    {
        let mut indices: Vec<Option<usize>> = Vec::new();
        let mut i: usize = 0;
        while i < vectors.len()
            invariant
                i <= vectors@.len(),
                indices@.len() == i,
                forall|k: int| 0 <= k < i ==> indices@[k] is None,
            decreases vectors@.len() - i,
        {
            indices.push(None);
            i += 1;
        }
        let r = AntichainIterator { vectors, indices, finished: false, p_ord };
        proof {
            r.lemma_lens();
            let lens = chain_lens(r.chains());
            assert forall|k: int| 0 <= k < lens.len() implies 0 <= #[trigger] lens[k]
                <= usize::MAX by {
                assert(r.vectors@[k].len() == r.vectors@[k]@.len());
            }
            assert forall|k: int| 0 <= k < r.indices@.len() implies 0 <= #[trigger] digit(
                r.indices@[k],
            ) <= lens[k] by {}
            lemma_rank_all_none(lens, r.indices@, 0, lens.len() as int);
        }
        r
    }

    /// Whether no two elements of `combination` are comparable.
    fn is_incomparable(&self, combination: &[&T]) -> (r: bool)
        ensures
            r == is_antichain(self.p_ord, deref_seq(combination@)),
    {
        let ghost c = deref_seq(combination@);
        let mut i: usize = 0;
        while i < combination.len()
            invariant
                c == deref_seq(combination@),
                i <= c.len(),
                forall|a: int, b: int|
                    0 <= a < i && a < b < c.len() ==> !self.p_ord.spec_ge(#[trigger] c[a], #[trigger] c[b])
                        && !self.p_ord.spec_ge(c[b], c[a]),
            decreases c.len() - i,
        {
            let mut j: usize = i + 1;
            while j < combination.len()
                invariant
                    c == deref_seq(combination@),
                    i < c.len(),
                    i + 1 <= j <= c.len(),
                    forall|a: int, b: int|
                        0 <= a < i && a < b < c.len() ==> !self.p_ord.spec_ge(#[trigger] c[a], #[trigger] c[b])
                            && !self.p_ord.spec_ge(c[b], c[a]),
                    forall|b: int|
                        i < b < j ==> !self.p_ord.spec_ge(c[i as int], #[trigger] c[b])
                            && !self.p_ord.spec_ge(c[b], c[i as int]),
                decreases c.len() - j,
            {
                if self.p_ord.cp(combination[i], combination[j]) {
                    proof {
                        assert(c[i as int] == *combination@[i as int]);
                        assert(c[j as int] == *combination@[j as int]);
                        assert(self.p_ord.spec_ge(c[i as int], c[j as int]) || self.p_ord.spec_ge(
                            c[j as int],
                            c[i as int],
                        ));
                    }
                    return false;
                }
                j += 1;
            }
            i += 1;
        }
        true
    }

    /// The elements that the current state selects, in chain order.
    fn current(&self) -> (r: Vec<&'a T>)
        requires
            self.wf(),
        ensures
            deref_seq(r@) == combination_upto(
                self.chains(),
                self.indices@,
                self.vectors@.len() as int,
            ),
    {
        proof {
            self.lemma_lens();
        }
        let mut r: Vec<&'a T> = Vec::new();
        let mut i: usize = 0;
        while i < self.indices.len()
            invariant
                self.wf(),
                chain_lens(self.chains()).len() == self.vectors@.len(),
                forall|k: int|
                    0 <= k < self.vectors@.len() ==> #[trigger] chain_lens(self.chains())[k]
                        == self.vectors@[k]@.len() && self.chains()[k].len()
                        == self.vectors@[k]@.len(),
                i <= self.indices@.len(),
                deref_seq(r@) == combination_upto(self.chains(), self.indices@, i as int),
            decreases self.indices@.len() - i,
        {
            let ghost old_r = r@;
            match self.indices[i] {
                Some(k) => {
                    assert(digit(self.indices@[i as int]) <= chain_lens(self.chains())[i as int]);
                    r.push(self.vectors[i][k]);
                    proof {
                        assert(self.chains()[i as int][k as int] == *self.vectors@[i as int]@[k as int]);
                        assert(deref_seq(r@) =~= deref_seq(old_r).push(*self.vectors@[i as int]@[k as int]));
                    }
                },
                None => {},
            }
            i += 1;
        }
        r
    }

    /// The next antichain: the selection of the first state from the current position on whose
    /// elements are pairwise incomparable. The iterator then stands just after that state, or
    /// after the last state where none is left.
    pub fn next(&mut self) -> (r: Option<Vec<&'a T>>)
        requires
            old(self).wf(),
        ensures
            final(self).wf(),
            final(self).chains() == old(self).chains(),
            final(self).order() == old(self).order(),
            r is Some ==> exists|q: int|
                old(self).position() <= q < state_count(chain_lens(old(self).chains()))
                    && is_antichain_at(old(self).order(), old(self).chains(), q) && none_between(
                    old(self).order(),
                    old(self).chains(),
                    old(self).position(),
                    q,
                ) && deref_seq(r->Some_0@) == #[trigger] combination_at(old(self).chains(), q)
                    && final(self).position() == q + 1,
            r is None ==> none_between(
                old(self).order(),
                old(self).chains(),
                old(self).position(),
                state_count(chain_lens(old(self).chains())),
            ) && final(self).position() == state_count(chain_lens(old(self).chains())),
    {
        let ghost ch = self.chains();
        let ghost lens = chain_lens(ch);
        let ghost p = self.p_ord;
        let ghost n = state_count(lens);
        let ghost start = self.position();
        proof {
            self.lemma_lens();
            lemma_rank_bounds(lens, self.indices@, 0, lens.len() as int);
        }
        while !self.finished
            invariant
                self.wf(),
                ch == self.chains(),
                ch == old(self).chains(),
                p == self.p_ord,
                p == old(self).p_ord,
                lens == chain_lens(ch),
                n == state_count(lens),
                start == old(self).position(),
                start <= self.position() <= n,
                none_between(p, ch, start, self.position()),
            decreases n - self.position(),
        {
            let ghost q = self.position();
            proof {
                self.lemma_lens();
                lemma_rank_bounds(lens, self.indices@, 0, lens.len() as int);
                lemma_state_at_rank(lens, self.indices@, lens.len() as int);
                assert(self.indices@.take(lens.len() as int) =~= self.indices@);
            }
            let comb = self.current();
            let adv = self.advance_indices();
            if !adv {
                self.finished = true;
            }
            assert(self.position() == q + 1);
            assert(deref_seq(comb@) == combination_at(ch, q));
            if self.is_incomparable(comb.as_slice()) {
                assert(is_antichain_at(p, ch, q));
                assert(q < n);
                return Some(comb);
            }
            assert(!is_antichain_at(p, ch, q));
        }
        None
    }

    /// Move to the next state: the last chain that can move to its next selection does so, and
    /// every chain after it goes back to no selection. Returns false, with every chain back to
    /// no selection, where the state was the last one.
    fn advance_indices(&mut self) -> (r: bool)
        requires
            old(self).wf(),
        ensures
            final(self).wf(),
            final(self).vectors == old(self).vectors,
            final(self).p_ord == old(self).p_ord,
            final(self).finished == old(self).finished,
            r ==> rank(chain_lens(final(self).chains()), final(self).indices@) == rank(
                chain_lens(old(self).chains()),
                old(self).indices@,
            ) + 1,
            !r ==> rank(chain_lens(old(self).chains()), old(self).indices@) == state_count(
                chain_lens(old(self).chains()),
            ) - 1,
            !r ==> rank(chain_lens(final(self).chains()), final(self).indices@) == 0,
    {
        proof {
            self.lemma_lens();
        }
        let ghost lens = chain_lens(self.chains());
        let ghost old_ix = self.indices@;
        let ghost n = lens.len() as int;
        let mut i: usize = self.indices.len();
        while i > 0
            invariant
                lens == chain_lens(self.chains()),
                n == lens.len(),
                self.vectors == old(self).vectors,
                self.p_ord == old(self).p_ord,
                self.finished == old(self).finished,
                old(self).wf(),
                old_ix == old(self).indices@,
                lens == chain_lens(old(self).chains()),
                forall|k: int|
                    0 <= k < n ==> #[trigger] lens[k] == self.vectors@[k]@.len()
                        && 0 <= lens[k] <= usize::MAX,
                self.indices@.len() == n,
                i <= n,
                forall|k: int| 0 <= k < i ==> self.indices@[k] == old_ix[k],
                forall|k: int| i <= k < n ==> self.indices@[k] is None,
                forall|k: int| i <= k < n ==> #[trigger] digit(old_ix[k]) == lens[k],
            decreases i,
        {
            i -= 1;
            assert(0 <= digit(old_ix[i as int]) <= lens[i as int]);
            match self.indices[i] {
                None => {
                    if self.vectors[i].len() != 0 {
                        self.indices.set(i, Some(0));
                        proof {
                            self.advance_step(old_ix, i as int);
                        }
                        return true;
                    }
                },
                Some(idx) => {
                    if idx + 1 < self.vectors[i].len() {
                        self.indices.set(i, Some(idx + 1));
                        proof {
                            self.advance_step(old_ix, i as int);
                        }
                        return true;
                    }
                },
            }
            self.indices.set(i, None);
        }
        proof {
            lemma_rank_all_last(lens, old_ix, 0, n);
            lemma_rank_all_none(lens, self.indices@, 0, n);
            assert forall|k: int| 0 <= k < n implies 0 <= #[trigger] digit(self.indices@[k])
                <= lens[k] by {}
        }
        false
    }

    /// After position `i` moves up by one and every later chain goes from its last selection
    /// back to none, the state's number is one more than before.
    proof fn advance_step(&self, old_ix: Seq<Option<usize>>, i: int)
        requires
            lens_valid(chain_lens(self.chains())),
            digits_valid(chain_lens(self.chains()), old_ix),
            0 <= i < old_ix.len(),
            self.indices@.len() == old_ix.len(),
            digit(self.indices@[i]) == digit(old_ix[i]) + 1,
            digit(self.indices@[i]) <= chain_lens(self.chains())[i],
            forall|k: int| 0 <= k < i ==> self.indices@[k] == old_ix[k],
            forall|k: int| i < k < old_ix.len() ==> self.indices@[k] is None,
            forall|k: int|
                i < k < old_ix.len() ==> #[trigger] digit(old_ix[k]) == chain_lens(self.chains())[k],
        ensures
            self.wf(),
            rank(chain_lens(self.chains()), self.indices@) == rank(chain_lens(self.chains()), old_ix)
                + 1,
    {
        let lens = chain_lens(self.chains());
        let ix = self.indices@;
        let n = lens.len() as int;
        assert forall|k: int| 0 <= k < n implies 0 <= #[trigger] digit(ix[k]) <= lens[k] by {
            if k < i {
                assert(ix[k] == old_ix[k]);
            }
        }
        lemma_rank_split(lens, old_ix, 0, i + 1, n);
        lemma_rank_split(lens, ix, 0, i + 1, n);
        lemma_rank_all_last(lens, old_ix, i + 1, n);
        lemma_rank_all_none(lens, ix, i + 1, n);
        lemma_rank_agree(lens, ix, old_ix, 0, i);
        let a = rank_range(lens, old_ix, 0, i + 1);
        let t = total_range(lens, i + 1, n);
        assert(rank_range(lens, ix, 0, i + 1) == a + 1);
        assert((a + 1) * t + 0 == a * t + (t - 1) + 1) by (nonlinear_arith);
    }
}

} // verus!

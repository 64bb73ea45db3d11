use crate::antichain_iterator::{is_antichain, AntichainIterator};
use crate::errors::PosetError;
use crate::traits::{
    chain_values, index_chain_values, is_chain_cover, is_position_permutation,
    covers_within, has_no_cover, is_ascending, is_first_cover, is_greedy_chain, is_transitive,
    lemma_lt_transitive, pool_minimal_pred, pool_without, deref_seq, is_maximal_in, maximal_pred, minimal_pred, is_minimal_in, maxima_of, minima_of, pool_in_bounds,
    pool_values, spec_lt, PartialOrderBehaviour, PosetBehaviour,
};
use vstd::prelude::*;

verus! {

/// What a filter keeps stands in the sequence it was taken from.
proof fn lemma_filter_kept<A>(s: Seq<A>, pred: spec_fn(A) -> bool, i: int)
    requires
        0 <= i < s.filter(pred).len(),
    ensures
        s.contains(s.filter(pred)[i]),
    decreases s.len(),
{
    reveal(Seq::filter);
    if s.len() > 0 {
        let sub = s.drop_last().filter(pred);
        if pred(s.last()) && i == sub.len() {
            assert(s[s.len() - 1] == s.last());
        } else {
            lemma_filter_kept(s.drop_last(), pred, i);
            let k = choose|k: int| 0 <= k < s.drop_last().len() && s.drop_last()[k] == sub[i];
            assert(s[k] == sub[i]);
        }
    }
}

/// What a concatenation holds, and when it holds no value twice.
proof fn lemma_concat(a: Seq<usize>, b: Seq<usize>)
    ensures
        forall|k: usize| #[trigger] (a + b).contains(k) <==> (a.contains(k) || b.contains(k)),
        a.no_duplicates() && b.no_duplicates() && (forall|k: usize|
            a.contains(k) ==> !#[trigger] b.contains(k)) ==> (a + b).no_duplicates(),
{
    assert forall|k: usize| #[trigger] (a + b).contains(k) <==> (a.contains(k) || b.contains(k)) by {
        if a.contains(k) {
            let q = choose|q: int| 0 <= q < a.len() && a[q] == k;
            assert((a + b)[q] == k);
        }
        if b.contains(k) {
            let q = choose|q: int| 0 <= q < b.len() && b[q] == k;
            assert((a + b)[a.len() + q] == k);
        }
        if (a + b).contains(k) {
            let q = choose|q: int| 0 <= q < (a + b).len() && (a + b)[q] == k;
            if q < a.len() {
                assert(a[q] == k);
            } else {
                assert(b[q - a.len()] == k);
            }
        }
    }
    if a.no_duplicates() && b.no_duplicates() && (forall|k: usize|
        a.contains(k) ==> !#[trigger] b.contains(k)) {
        assert forall|i: int, j: int|
            0 <= i < (a + b).len() && 0 <= j < (a + b).len() && i != j implies (a + b)[i] != (a
                + b)[j] by {
            if i < a.len() && j >= a.len() {
                assert(a.contains(a[i]));
                assert(b[j - a.len()] == (a + b)[j]);
                assert(b.contains(b[j - a.len()]));
            } else if j < a.len() && i >= a.len() {
                assert(a.contains(a[j]));
                assert(b[i - a.len()] == (a + b)[i]);
                assert(b.contains(b[i - a.len()]));
            }
        }
    }
}

/// The antichain that greedy selection builds from the elements at the first `k` positions of
/// `order`: each element joins when it is incomparable with every element already chosen.
pub open spec fn greedy_antichain<P: PartialOrderBehaviour>(
    p: &P,
    s: Seq<P::Element>,
    order: Seq<usize>,
    k: int,
) -> Seq<P::Element>
    decreases k,
{
    if k <= 0 {
        Seq::empty()
    } else {
        let a = greedy_antichain(p, s, order, k - 1);
        let x = s[order[k - 1] as int];
        if forall|m: int| 0 <= m < a.len() ==> !p.spec_ge(#[trigger] a[m], x) && !p.spec_ge(x, a[m]) {
            a.push(x)
        } else {
            a
        }
    }
}

/// Each element `x` either stands in `a` or is comparable with an element of `a`.
pub open spec fn is_blocked_by<P: PartialOrderBehaviour>(
    p: &P,
    a: Seq<P::Element>,
    x: P::Element,
) -> bool {
    a.contains(x) || exists|m: int| 0 <= m < a.len() && (p.spec_ge(#[trigger] a[m], x) || p.spec_ge(x, a[m]))
}

/// The covering pairs `(i, j)` with `j < hi`: `s[j]` covers `s[i]` within `s`.
pub open spec fn cover_row<P: PartialOrderBehaviour>(p: &P, s: Seq<P::Element>, i: int, hi: int) -> Seq<
    (usize, usize),
>
    decreases hi,
{
    if hi <= 0 {
        Seq::empty()
    } else if covers_within(p, s[i], s[hi - 1], s) {
        cover_row(p, s, i, hi - 1).push((i as usize, (hi - 1) as usize))
    } else {
        cover_row(p, s, i, hi - 1)
    }
}

/// The covering pairs `(i, j)` with `i < hi`, ordered by `i` and then by `j`.
pub open spec fn cover_pairs<P: PartialOrderBehaviour>(p: &P, s: Seq<P::Element>, hi: int) -> Seq<
    (usize, usize),
>
    decreases hi,
{
    if hi <= 0 {
        Seq::empty()
    } else {
        cover_pairs(p, s, hi - 1) + cover_row(p, s, hi - 1, s.len() as int)
    }
}

/// Relies on rand's `SliceRandom::shuffle`, driven by `thread_rng`: it only swaps entries of
/// the vector, so the same entries come back in an order that chance decides.
#[verifier::external_body]
fn shuffle_positions(v: &mut Vec<usize>)
    ensures
        final(v)@.to_multiset() == old(v)@.to_multiset(),
{
    rand::seq::SliceRandom::shuffle(v.as_mut_slice(), &mut rand::thread_rng());
}

/// Under a transitive `>=`, the first `i` elements of `v` hold one that nothing among them
/// lies strictly below.
proof fn lemma_minimal_exists<P: PartialOrderBehaviour>(p: &P, v: Seq<P::Element>, i: int) -> (m:
    int)
    requires
        is_transitive(p),
        1 <= i <= v.len(),
    ensures
        0 <= m < i,
        forall|j: int| 0 <= j < i ==> !spec_lt(p, #[trigger] v[j], v[m]),
    decreases i,
{
    if i == 1 {
        0
    } else {
        let m0 = lemma_minimal_exists(p, v, i - 1);
        if spec_lt(p, v[i - 1], v[m0]) {
            assert forall|j: int| 0 <= j < i implies !spec_lt(p, #[trigger] v[j], v[i - 1]) by {
                if j < i - 1 && spec_lt(p, v[j], v[i - 1]) {
                    lemma_lt_transitive(p, v[j], v[i - 1], v[m0]);
                }
            }
            i - 1
        } else {
            m0
        }
    }
}

/// Flattening the values of chains of positions gives the values of the flattened positions.
proof fn lemma_flatten_values<E>(s: Seq<E>, idx: Seq<Seq<usize>>)
    ensures
        index_chain_values(s, idx).flatten() == pool_values(s, idx.flatten()),
    decreases idx.len(),
{
    if idx.len() == 0 {
        assert(index_chain_values(s, idx) =~= Seq::<Seq<E>>::empty());
        assert(idx.flatten() =~= Seq::<usize>::empty());
        assert(pool_values(s, idx.flatten()) =~= Seq::<E>::empty());
    } else {
        let front = idx.drop_last();
        let c = idx.last();
        lemma_flatten_values(s, front);
        assert(front.push(c) =~= idx);
        front.lemma_flatten_push(c);
        assert(index_chain_values(s, idx) =~= index_chain_values(s, front).push(pool_values(s, c)));
        index_chain_values(s, front).lemma_flatten_push(pool_values(s, c));
        assert(pool_values(s, front.flatten() + c) =~= pool_values(s, front.flatten()) + pool_values(s, c));
    }
}

/// The values at a list of positions that names each position of `s` exactly once are the
/// values of `s`, as a multiset.
proof fn lemma_permuted_values<E>(s: Seq<E>, f: Seq<usize>)
    requires
        s.len() <= usize::MAX,
        is_position_permutation(f, s.len() as int),
    ensures
        pool_values(s, f).to_multiset() == s.to_multiset(),
    decreases s.len(),
{
    broadcast use vstd::seq_lib::group_to_multiset_ensures;

    let n = s.len() as int;
    if n == 0 {
        if f.len() > 0 {
            assert(f[0] < 0);
        }
        assert(pool_values(s, f) =~= s);
    } else {
        let last = (n - 1) as usize;
        assert(f.contains(last));
        let q = choose|q: int| 0 <= q < f.len() && f[q] == last;
        let g = f.remove(q);
        let t = s.drop_last();
        assert forall|k: int| 0 <= k < g.len() implies #[trigger] g[k] < n - 1 by {
            if k < q {
                assert(f[k] != f[q]);
            } else {
                assert(f[k + 1] != f[q]);
            }
        }
        assert forall|k: usize| k < n - 1 implies #[trigger] g.contains(k) by {
            assert(f.contains(k));
            let j = choose|j: int| 0 <= j < f.len() && f[j] == k;
            if j < q {
                assert(g[j] == k);
            } else {
                assert(j != q);
                assert(g[j - 1] == k);
            }
        }
        assert(g.no_duplicates());
        lemma_permuted_values(t, g);
        assert(pool_values(t, g) =~= pool_values(s, g));
        assert(f =~= g.insert(q, last));
        assert(pool_values(s, f) =~= pool_values(s, g).insert(q, s[n - 1]));
        assert(t.push(s[n - 1]) =~= s);
    }
}

/// Where `>=` is transitive, the chains of a chain decomposition, put end to end, hold each
/// element of the poset exactly as often as the poset does.
pub proof fn lemma_decomposition_multiset<P: PartialOrderBehaviour>(
    p: &P,
    s: Seq<P::Element>,
    idx: Seq<Seq<usize>>,
)
    requires
        s.len() <= usize::MAX,
        is_transitive(p),
        is_chain_cover(p, s, idx),
    ensures
        index_chain_values(s, idx).flatten().to_multiset() == s.to_multiset(),
{
    lemma_flatten_values(s, idx);
    lemma_permuted_values(s, idx.flatten());
}

/// A finite poset: a sequence of elements (duplicates allowed) and a partial order on them.
#[verifier::reject_recursive_types(T)]
pub struct Poset<T, F> where F: PartialOrderBehaviour<Element = T> {
    elements: Vec<T>,
    compare: F,
}

impl<T, F> PartialOrderBehaviour for Poset<T, F> where F: PartialOrderBehaviour<Element = T> {
    type Element = T;

    closed spec fn spec_ge(&self, a: T, b: T) -> bool {
        self.compare.spec_ge(a, b)
    }

    fn ge(&self, a: &T, b: &T) -> (r: bool) {
        self.compare.ge(a, b)
    }
}

impl<T, F> Poset<T, F> where F: PartialOrderBehaviour<Element = T> {
    /// Whether some element of the poset lies strictly above `v` (or below, when `above` is
    /// false).
    fn has_strict(&self, v: &T, above: bool) -> (r: bool)
        ensures
            r == (exists|k: int|
                0 <= k < self.elements@.len() && if above {
                    spec_lt(self, *v, #[trigger] self.elements@[k])
                } else {
                    spec_lt(self, self.elements@[k], *v)
                }),
    {
        let mut j: usize = 0;
        while j < self.elements.len()
            invariant
                j <= self.elements@.len(),
                forall|k: int|
                    0 <= k < j ==> !(if above {
                        spec_lt(self, *v, #[trigger] self.elements@[k])
                    } else {
                        spec_lt(self, self.elements@[k], *v)
                    }),
            decreases self.elements@.len() - j,
        {
            let w = &self.elements[j];
            let hit = if above {
                self.lt(v, w)
            } else {
                self.lt(w, v)
            };
            if hit {
                return true;
            }
            j += 1;
        }
        false
    }

    /// The elements of the poset that nothing lies strictly above (below, when `upper` is
    /// false).
    fn extremes(&self, upper: bool) -> (r: Vec<&T>)
        ensures
            upper ==> deref_seq(r@) == maxima_of(self, self.elements@),
            !upper ==> deref_seq(r@) == minima_of(self, self.elements@),
    {
        let ghost s = self.elements@;
        let ghost pred = if upper {
            maximal_pred(self, s)
        } else {
            minimal_pred(self, s)
        };
        let mut r: Vec<&T> = Vec::new();
        let mut i: usize = 0;
        while i < self.elements.len()
            invariant
                s == self.elements@,
                i <= s.len(),
                pred == (if upper {
                    maximal_pred(self, s)
                } else {
                    minimal_pred(self, s)
                }),
                deref_seq(r@) == s.subrange(0, i as int).filter(pred),
            decreases s.len() - i,
        {
            let v = &self.elements[i];
            let hit = self.has_strict(v, upper);
            proof {
                assert(s.subrange(0, i + 1).drop_last() =~= s.subrange(0, i as int));
                assert(s.subrange(0, i + 1).last() == s[i as int]);
                if upper {
                    assert(pred(s[i as int]) == is_maximal_in(self, s, s[i as int]));
                } else {
                    assert(pred(s[i as int]) == is_minimal_in(self, s, s[i as int]));
                }
                assert(pred(s[i as int]) == !hit);
                assert(s.subrange(0, i + 1) =~= s.subrange(0, i as int).push(s[i as int]));
                s.subrange(0, i as int).lemma_filter_push(s[i as int], pred);
            }
            let ghost old_r = r@;
            if !hit {
                r.push(v);
                proof {
                    assert(deref_seq(r@) =~= deref_seq(old_r).push(s[i as int]));
                }
            }
            i += 1;
        }
        proof {
            assert(s.subrange(0, s.len() as int) =~= s);
        }
        r
    }

    /// The positions of `pool` whose elements are minimal among the elements of `pool`. An
    /// empty pool has none.
    pub fn minima_in_pool(&self, pool: &[usize]) -> (r: Option<Vec<usize>>)
        requires
            pool_in_bounds(pool@, self.spec_elements().len() as int),
        ensures
            r is Some,
            r->Some_0@ == pool@.filter(pool_minimal_pred(self, self.spec_elements(), pool@)),
    {
        let ghost s = self.elements@;
        let ghost pv = pool_values(s, pool@);
        let ghost pred = pool_minimal_pred(self, s, pool@);
        let mut r: Vec<usize> = Vec::new();
        let mut i: usize = 0;
        while i < pool.len()
            invariant
                s == self.elements@,
                pv == pool_values(s, pool@),
                pred == pool_minimal_pred(self, s, pool@),
                pool_in_bounds(pool@, s.len() as int),
                i <= pool@.len(),
                r@ == pool@.subrange(0, i as int).filter(pred),
            decreases pool@.len() - i,
        {
            let v = &self.elements[pool[i]];
            let mut below = false;
            let mut j: usize = 0;
            while j < pool.len()
                invariant
                    s == self.elements@,
                    pv == pool_values(s, pool@),
                    pool_in_bounds(pool@, s.len() as int),
                    i < pool@.len(),
                    *v == s[pool@[i as int] as int],
                    j <= pool@.len(),
                    below == (exists|k: int| 0 <= k < j && spec_lt(self, #[trigger] pv[k], *v)),
                decreases pool@.len() - j,
            {
                let w = &self.elements[pool[j]];
                assert(pv[j as int] == s[pool@[j as int] as int]);
                if self.lt(w, v) {
                    below = true;
                }
                j += 1;
            }
            proof {
                assert(pred(pool@[i as int]) == is_minimal_in(self, pv, *v));
                assert(pred(pool@[i as int]) == !below);
                assert(pool@.subrange(0, i + 1) =~= pool@.subrange(0, i as int).push(pool@[i as int]));
                pool@.subrange(0, i as int).lemma_filter_push(pool@[i as int], pred);
            }
            if !below {
                r.push(pool[i]);
            }
            i += 1;
        }
        proof {
            assert(pool@.subrange(0, pool@.len() as int) =~= pool@);
        }
        Some(r)
    }

    /// Grow one chain greedily from the elements at the positions in `pool`, and take the
    /// positions that it holds out of `pool`. An empty pool gives an empty chain; a non-empty
    /// pool without a minimal element gives `NoMinimalInPool` and stays as it was.
    pub fn chain_from_pool(&self, pool: &mut Vec<usize>) -> (r: Result<Vec<usize>, PosetError>)
        requires
            pool_in_bounds(old(pool)@, self.spec_elements().len() as int),
        ensures
            pool_in_bounds(final(pool)@, self.spec_elements().len() as int),
            old(pool)@.len() == 0 ==> r is Ok && r->Ok_0@.len() == 0 && final(pool)@ == old(pool)@,
            r is Err <==> (old(pool)@.len() > 0 && old(pool)@.filter(
                pool_minimal_pred(self, self.spec_elements(), old(pool)@),
            ).len() == 0),
            r is Err ==> r->Err_0 == PosetError::NoMinimalInPool && final(pool)@ == old(pool)@,
            is_transitive(self) ==> r is Ok,
            r is Ok && old(pool)@.len() > 0 ==> {
                let c = r->Ok_0@;
                &&& is_greedy_chain(self, self.spec_elements(), old(pool)@, c)
                &&& final(pool)@ == pool_without(old(pool)@, c)
                &&& final(pool)@.len() < old(pool)@.len()
                &&& forall|a: int| 0 <= a < c.len() ==> old(pool)@.contains(#[trigger] c[a])
                &&& forall|k: usize|
                    #[trigger] final(pool)@.contains(k) <==> (old(pool)@.contains(k)
                        && !c.contains(k))
                &&& old(pool)@.no_duplicates() ==> final(pool)@.no_duplicates()
                &&& is_transitive(self) ==> is_ascending(
                    self,
                    pool_values(self.spec_elements(), c),
                )
            },
    {
        if pool.len() == 0 {
            return Ok(Vec::new());
        }
        let ghost s = self.elements@;
        let ghost pv = pool_values(s, pool@);
        proof {
            if is_transitive(self) {
                let m = lemma_minimal_exists(self, pv, pv.len() as int);
                let pred = pool_minimal_pred(self, s, pool@);
                assert(pv[m] == s[pool@[m] as int]);
                assert(pred(pool@[m]));
                pool@.lemma_filter_contains(pred, m);
                assert(pool@.filter(pred).len() > 0);
            }
        }
        let mins = match self.minima_in_pool(pool.as_slice()) {
            Some(m) => m,
            None => return Err(PosetError::NoMinimalInPool),
        };
        if mins.len() == 0 {
            return Err(PosetError::NoMinimalInPool);
        }
        proof {
            lemma_filter_kept(pool@, pool_minimal_pred(self, s, pool@), 0);
        }
        let mut chain: Vec<usize> = Vec::new();
        chain.push(mins[0]);
        let mut latest: usize = mins[0];
        let mut growing = true;
        while growing && chain.len() < pool.len()
            invariant
                s == self.elements@,
                pv == pool_values(s, pool@),
                pool_in_bounds(pool@, s.len() as int),
                1 <= chain@.len() <= pool@.len(),
                latest == chain@.last(),
                chain@[0] == mins@[0],
                forall|a: int| 0 <= a < chain@.len() ==> pool@.contains(#[trigger] chain@[a]),
                forall|a: int|
                    0 <= a < chain@.len() - 1 ==> exists|m: int|
                        is_first_cover(self, s, pool@, #[trigger] chain@[a], m) && pool@[m]
                            == chain@[a + 1],
                !growing ==> has_no_cover(self, s, pool@, latest),
                is_transitive(self) ==> is_ascending(self, pool_values(s, chain@)),
            decreases pool@.len() - chain@.len() + (if growing {
                1int
            } else {
                0int
            }),
        {
            let mut m: usize = 0;
            let mut found = false;
            while m < pool.len() && !found
                invariant
                    s == self.elements@,
                    pv == pool_values(s, pool@),
                    pool_in_bounds(pool@, s.len() as int),
                    latest < s.len(),
                    m <= pool@.len(),
                    found ==> m < pool@.len() && covers_within(
                        self,
                        s[latest as int],
                        s[pool@[m as int] as int],
                        pv,
                    ),
                    forall|j: int|
                        0 <= j < m ==> !covers_within(
                            self,
                            s[latest as int],
                            s[#[trigger] pool@[j] as int],
                            pv,
                        ),
                decreases pool@.len() - m + (if found {
                    0int
                } else {
                    1int
                }),
            {
                if self.cover_in_pool(&self.elements[latest], &self.elements[pool[m]], pool.as_slice()) {
                    found = true;
                } else {
                    m += 1;
                }
            }
            if found {
                let ghost old_chain = chain@;
                let x = pool[m];
                proof {
                    assert(is_first_cover(self, s, pool@, latest, m as int));
                    assert(pool@.contains(x));
                    if is_transitive(self) {
                        let cv = pool_values(s, old_chain);
                        assert forall|a: int| 0 <= a < old_chain.len() implies spec_lt(
                            self,
                            cv[a],
                            s[x as int],
                        ) by {
                            if a < old_chain.len() - 1 {
                                assert(spec_lt(self, cv[a], cv[old_chain.len() - 1]));
                                lemma_lt_transitive(self, cv[a], s[latest as int], s[x as int]);
                            }
                        }
                    }
                }
                chain.push(x);
                latest = x;
                proof {
                    assert forall|a: int| 0 <= a < chain@.len() - 1 implies exists|m2: int|
                        is_first_cover(self, s, pool@, #[trigger] chain@[a], m2) && pool@[m2]
                            == chain@[a + 1] by {
                        if a == chain@.len() - 2 {
                            assert(is_first_cover(self, s, pool@, chain@[a], m as int));
                        } else {
                            assert(chain@[a] == old_chain[a] && chain@[a + 1] == old_chain[a + 1]);
                        }
                    }
                    if is_transitive(self) {
                        let cv = pool_values(s, chain@);
                        assert(cv =~= pool_values(s, old_chain).push(s[x as int]));
                    }
                }
            } else {
                growing = false;
            }
        }
        let ghost c = chain@;
        let ghost pred = |i: usize| !c.contains(i);
        let mut rest: Vec<usize> = Vec::new();
        let ghost mut dropped = false;
        let mut i: usize = 0;
        while i < pool.len()
            invariant
                c == chain@,
                pred == (|i: usize| !c.contains(i)),
                i <= pool@.len(),
                rest@ == pool@.subrange(0, i as int).filter(pred),
                rest@.len() + (if dropped {
                    1int
                } else {
                    0int
                }) <= i,
                dropped <==> exists|k: int| 0 <= k < i && c.contains(#[trigger] pool@[k]),
                forall|k: usize|
                    #[trigger] rest@.contains(k) <==> (exists|j: int|
                        0 <= j < i && pool@[j] == k && !c.contains(k)),
                pool@.no_duplicates() ==> rest@.no_duplicates(),
            decreases pool@.len() - i,
        {
            let x = pool[i];
            let mut inside = false;
            let mut j: usize = 0;
            while j < chain.len()
                invariant
                    c == chain@,
                    j <= c.len(),
                    inside == (exists|k: int| 0 <= k < j && c[k] == x),
                decreases c.len() - j,
            {
                if chain[j] == x {
                    inside = true;
                }
                j += 1;
            }
            proof {
                assert(pool@.subrange(0, i + 1) =~= pool@.subrange(0, i as int).push(x));
                pool@.subrange(0, i as int).lemma_filter_push(x, pred);
                if inside {
                    let k = choose|k: int| 0 <= k < c.len() && c[k] == x;
                    assert(c.contains(x));
                }
            }
            if !inside {
                proof {
                    if pool@.no_duplicates() {
                        assert(!rest@.contains(x));
                    }
                }
                let ghost old_rest = rest@;
                rest.push(x);
                proof {
                    assert(rest@ =~= old_rest.push(x));
                    assert forall|k: usize| #[trigger] rest@.contains(k) <==> (exists|j: int|
                        0 <= j < i + 1 && pool@[j] == k && !c.contains(k)) by {
                        if k == x {
                            assert(rest@[rest@.len() - 1] == x);
                            assert(0 <= i < i + 1 && pool@[i as int] == k && !c.contains(k));
                        } else if rest@.contains(k) {
                            let q = choose|q: int| 0 <= q < rest@.len() && rest@[q] == k;
                            assert(old_rest[q] == k);
                            assert(old_rest.contains(k));
                        } else if exists|j: int| 0 <= j < i + 1 && pool@[j] == k && !c.contains(k) {
                            let j = choose|j: int| 0 <= j < i + 1 && pool@[j] == k && !c.contains(k);
                            assert(j < i);
                            assert(old_rest.contains(k));
                            let q = choose|q: int| 0 <= q < old_rest.len() && old_rest[q] == k;
                            assert(rest@[q] == k);
                        }
                    }
                }
            } else {
                proof {
                    dropped = true;
                    assert forall|k: usize| #[trigger] rest@.contains(k) <==> (exists|j: int|
                        0 <= j < i + 1 && pool@[j] == k && !c.contains(k)) by {
                        if exists|j: int| 0 <= j < i + 1 && pool@[j] == k && !c.contains(k) {
                            let j = choose|j: int| 0 <= j < i + 1 && pool@[j] == k && !c.contains(k);
                            assert(j < i);
                        }
                    }
                }
            }
            i += 1;
        }
        proof {
            assert(pool@.subrange(0, pool@.len() as int) =~= pool@);
            assert(c.contains(c[0]));
            let k0 = choose|k: int| 0 <= k < pool@.len() && pool@[k] == c[0];
            assert(c.contains(pool@[k0]));
            assert forall|k: usize| #[trigger] rest@.contains(k) <==> (pool@.contains(k) && !c.contains(k)) by {
                if pool@.contains(k) && !c.contains(k) {
                    let j = choose|j: int| 0 <= j < pool@.len() && pool@[j] == k;
                    assert(0 <= j < pool@.len() && pool@[j] == k && !c.contains(k));
                }
            }
            assert forall|k: int| 0 <= k < rest@.len() implies #[trigger] rest@[k] < s.len() by {
                assert(rest@.contains(rest@[k]));
            }
        }
        *pool = rest;
        Ok(chain)
    }

    /// Decompose the poset into chains by greedy extraction: while positions remain, take the
    /// chain that `chain_from_pool` grows from them. Each chain is listed from its least
    /// element up. Fails with `NoMinimalInPool` where some remaining pool has no minimal element.
    pub fn chain_decomposition(&self) -> (r: Result<Vec<Vec<&T>>, PosetError>)
        ensures
            self.spec_elements().len() == 0 ==> r is Ok && r->Ok_0@.len() == 0,
            r is Ok ==> exists|idx: Seq<Seq<usize>>|
                is_chain_cover(self, self.spec_elements(), idx) && #[trigger] index_chain_values(
                    self.spec_elements(),
                    idx,
                ) == chain_values(r->Ok_0@),
            r is Err ==> r->Err_0 == PosetError::NoMinimalInPool,
            is_transitive(self) ==> r is Ok,
    {
        let ghost s = self.elements@;
        let n = self.elements.len();
        let mut pool: Vec<usize> = Vec::new();
        let mut i: usize = 0;
        while i < n
            invariant
                n == s.len(),
                i <= n,
                pool@ == Seq::new(i as nat, |k: int| k as usize),
            decreases n - i,
        {
            pool.push(i);
            i += 1;
        }
        proof {
            assert forall|k: usize| k < n implies #[trigger] pool@.contains(k) by {
                assert(pool@[k as int] == k);
            }
        }
        let mut chains: Vec<Vec<&T>> = Vec::new();
        let ghost mut idx: Seq<Seq<usize>> = Seq::empty();
        proof {
            assert(idx.flatten() =~= Seq::<usize>::empty());
        }
        while pool.len() > 0
            invariant
                s == self.elements@,
                n == s.len(),
                pool_in_bounds(pool@, n as int),
                pool@.no_duplicates(),
                forall|k: usize| k < n ==> idx.flatten().contains(k) || #[trigger] pool@.contains(k),
                forall|k: usize| #[trigger] idx.flatten().contains(k) ==> !pool@.contains(k),
                forall|k: int| 0 <= k < idx.flatten().len() ==> #[trigger] idx.flatten()[k] < n,
                is_transitive(self) ==> idx.flatten().no_duplicates(),
                forall|i: int| 0 <= i < idx.len() ==> #[trigger] idx[i].len() > 0,
                is_transitive(self) ==> forall|i: int|
                    0 <= i < idx.len() ==> is_ascending(self, pool_values(s, #[trigger] idx[i])),
                index_chain_values(s, idx) == chain_values(chains@),
                n == 0 ==> chains@.len() == 0,
            decreases pool@.len(),
        {
            let ghost old_pool = pool@;
            assert(pool@[0] < n);
            let c = match self.chain_from_pool(&mut pool) {
                Ok(c) => c,
                Err(e) => return Err(e),
            };
            let mut refs: Vec<&T> = Vec::new();
            let mut j: usize = 0;
            while j < c.len()
                invariant
                    s == self.elements@,
                    forall|a: int| 0 <= a < c@.len() ==> #[trigger] c@[a] < s.len(),
                    j <= c@.len(),
                    deref_seq(refs@) == pool_values(s, c@.subrange(0, j as int)),
                decreases c@.len() - j,
            {
                let ghost old_refs = refs@;
                refs.push(&self.elements[c[j]]);
                proof {
                    assert(pool_values(s, c@.subrange(0, j + 1)) =~= pool_values(
                        s,
                        c@.subrange(0, j as int),
                    ).push(s[c@[j as int] as int]));
                    assert(deref_seq(refs@) =~= deref_seq(old_refs).push(s[c@[j as int] as int]));
                }
                j += 1;
            }
            proof {
                assert(c@.subrange(0, c@.len() as int) =~= c@);
                let f = idx.flatten();
                idx.lemma_flatten_push(c@);
                lemma_concat(f, c@);
                if is_transitive(self) {
                    let cv = pool_values(s, c@);
                    assert forall|a: int, b: int|
                        0 <= a < c@.len() && 0 <= b < c@.len() && a != b implies c@[a] != c@[b] by {
                        if a < b {
                            assert(spec_lt(self, cv[a], cv[b]));
                        } else {
                            assert(spec_lt(self, cv[b], cv[a]));
                        }
                    }
                    assert forall|k: usize| f.contains(k) implies !#[trigger] c@.contains(k) by {
                        if c@.contains(k) {
                            let q = choose|q: int| 0 <= q < c@.len() && c@[q] == k;
                            assert(old_pool.contains(c@[q]));
                        }
                    }
                }
                assert forall|k: int| 0 <= k < (f + c@).len() implies #[trigger] (f + c@)[k] < n by {
                    if k >= f.len() {
                        assert((f + c@)[k] == c@[k - f.len()]);
                        assert(old_pool.contains(c@[k - f.len()]));
                    }
                }
            }
            let ghost old_chains = chains@;
            chains.push(refs);
            proof {
                idx = idx.push(c@);
                assert(chain_values(chains@) =~= chain_values(old_chains).push(pool_values(s, c@)));
                assert(index_chain_values(s, idx) =~= index_chain_values(s, idx.take(idx.len() - 1)).push(pool_values(s, c@)));
                assert(idx.take(idx.len() - 1) =~= idx.drop_last());
            }
        }
        proof {
            assert forall|k: usize| k < n implies #[trigger] idx.flatten().contains(k) by {
                assert(!pool@.contains(k));
            }
            assert(is_chain_cover(self, s, idx));
            assert(self.spec_elements() == s);
            assert(index_chain_values(s, idx) == chain_values(chains@));
        }
        Ok(chains)
    }

    /// An iterator over the antichains that `chains` give under the poset's partial order.
    pub fn antichains<'a>(&'a self, chains: Vec<Vec<&'a T>>) -> (r: AntichainIterator<'a, 'a, T, F>)
        ensures
            r.wf(),
            r.chains() == chain_values(chains@),
            self.orders_as(r.order()),
            r.position() == 0,
    {
        AntichainIterator::new(chains, &self.compare)
    }

    /// A maximal antichain, built greedily from the elements at the positions in `order`:
    /// each element joins when it is incomparable with every element chosen before it.
    pub fn maximal_antichain_in_order(&self, order: &[usize]) -> (r: Vec<&T>)
        requires
            pool_in_bounds(order@, self.spec_elements().len() as int),
        ensures
            deref_seq(r@) == greedy_antichain(self, self.spec_elements(), order@, order@.len() as int),
            is_antichain(self, deref_seq(r@)),
            forall|k: int|
                0 <= k < order@.len() ==> is_blocked_by(
                    self,
                    deref_seq(r@),
                    #[trigger] self.spec_elements()[order@[k] as int],
                ),
    {
        let ghost s = self.elements@;
        let mut r: Vec<&T> = Vec::new();
        let mut k: usize = 0;
        while k < order.len()
            invariant
                s == self.elements@,
                pool_in_bounds(order@, s.len() as int),
                k <= order@.len(),
                deref_seq(r@) == greedy_antichain(self, s, order@, k as int),
                is_antichain(self, deref_seq(r@)),
                forall|j: int| 0 <= j < k ==> is_blocked_by(self, deref_seq(r@), #[trigger] s[order@[j] as int]),
            decreases order@.len() - k,
        {
            let ghost a = deref_seq(r@);
            let x = &self.elements[order[k]];
            let mut ok = true;
            let mut m: usize = 0;
            while m < r.len() && ok
                invariant
                    a == deref_seq(r@),
                    m <= a.len(),
                    ok ==> forall|q: int| 0 <= q < m ==> !self.spec_ge(#[trigger] a[q], *x) && !self.spec_ge(*x, a[q]),
                    !ok ==> m < a.len() && (self.spec_ge(a[m as int], *x) || self.spec_ge(*x, a[m as int])),
                decreases a.len() - m + (if ok {
                    1int
                } else {
                    0int
                }),
            {
                assert(a[m as int] == *r@[m as int]);
                if !self.ip(r[m], x) {
                    ok = false;
                } else {
                    m += 1;
                }
            }
            proof {
                assert(*x == s[order@[k as int] as int]);
                assert(order@[k as int] < s.len());
            }
            if ok {
                r.push(x);
                proof {
                    let a2 = deref_seq(r@);
                    assert(a2 =~= a.push(*x));
                    assert(a2[a.len() as int] == *x);
                    assert forall|j: int| 0 <= j < k + 1 implies is_blocked_by(self, a2, #[trigger] s[order@[j] as int]) by {
                        if j < k {
                            let y = s[order@[j] as int];
                            if a.contains(y) {
                                let q = choose|q: int| 0 <= q < a.len() && a[q] == y;
                                assert(a2[q] == y);
                            } else {
                                let q = choose|q: int| 0 <= q < a.len() && (self.spec_ge(#[trigger] a[q], y) || self.spec_ge(y, a[q]));
                                assert(a2[q] == a[q]);
                            }
                        } else {
                            assert(a2.contains(*x));
                        }
                    }
                }
            } else {
                proof {
                    assert(!(forall|q: int| 0 <= q < a.len() ==> !self.spec_ge(#[trigger] a[q], *x) && !self.spec_ge(*x, a[q])));
                    assert(is_blocked_by(self, a, *x));
                }
            }
            k += 1;
        }
        r
    }

    /// A random maximal antichain: the elements are visited in an order that chance decides,
    /// and each joins when it is incomparable with every element chosen before it.
    pub fn rnd_maximal_antichain(&self) -> (r: Vec<&T>)
        ensures
            is_antichain(self, deref_seq(r@)),
            forall|k: int|
                0 <= k < self.spec_elements().len() ==> is_blocked_by(
                    self,
                    deref_seq(r@),
                    #[trigger] self.spec_elements()[k],
                ),
    {
        let n = self.elements.len();
        let mut order: Vec<usize> = Vec::new();
        let mut i: usize = 0;
        while i < n
            invariant
                n == self.elements@.len(),
                i <= n,
                order@ == Seq::new(i as nat, |k: int| k as usize),
            decreases n - i,
        {
            order.push(i);
            i += 1;
        }
        let ghost before = order@;
        shuffle_positions(&mut order);
        proof {
            broadcast use vstd::seq_lib::group_to_multiset_ensures;
            assert forall|k: int| 0 <= k < order@.len() implies #[trigger] order@[k] < n by {
                assert(order@.contains(order@[k]));
                assert(order@.to_multiset().count(order@[k]) > 0);
                assert(before.contains(order@[k]));
            }
        }
        let r = self.maximal_antichain_in_order(order.as_slice());
        proof {
            broadcast use vstd::seq_lib::group_to_multiset_ensures;
            assert forall|k: int| 0 <= k < self.elements@.len() implies is_blocked_by(
                self,
                deref_seq(r@),
                #[trigger] self.elements@[k],
            ) by {
                assert(before[k] == k as usize);
                assert(before.contains(k as usize));
                assert(before.to_multiset().count(k as usize) > 0);
                assert(order@.to_multiset().count(k as usize) > 0);
                assert(order@.contains(k as usize));
                let j = choose|j: int| 0 <= j < order@.len() && order@[j] == k as usize;
                assert(self.elements@[order@[j] as int] == self.elements@[k]);
            }
        }
        r
    }

    /// The edges of the Hasse diagram, as pairs of positions `(i, j)` where the element at `j`
    /// covers the element at `i`, ordered by `i` and then by `j`.
    pub fn hasse_edges(&self) -> (r: Vec<(usize, usize)>)
        ensures
            r@ == cover_pairs(self, self.spec_elements(), self.spec_elements().len() as int),
    {
        let ghost s = self.elements@;
        let n = self.elements.len();
        let mut r: Vec<(usize, usize)> = Vec::new();
        let mut i: usize = 0;
        while i < n
            invariant
                s == self.elements@,
                n == s.len(),
                i <= n,
                r@ == cover_pairs(self, s, i as int),
            decreases n - i,
        {
            let ghost before = r@;
            let mut j: usize = 0;
            while j < n
                invariant
                    s == self.elements@,
                    n == s.len(),
                    i < n,
                    j <= n,
                    r@ == before + cover_row(self, s, i as int, j as int),
                decreases n - j,
            {
                if self.cover(&self.elements[i], &self.elements[j]) {
                    r.push((i, j));
                    proof {
                        assert(r@ =~= before + cover_row(self, s, i as int, j + 1));
                    }
                }
                j += 1;
            }
            i += 1;
        }
        r
    }

    /// Construct a poset with no elements.
    pub fn new(compare: F) -> (r: Self)
        ensures
            r.spec_elements().len() == 0,
            r.orders_as(&compare),
    {
        Poset { elements: Vec::new(), compare }
    }

    /// Construct a poset from its elements and its partial order.
    pub fn with_elements(elements: Vec<T>, compare: F) -> (r: Self)
        ensures
            r.spec_elements() == elements@,
            r.orders_as(&compare),
    {
        Poset { elements, compare }
    }
}

impl<T, F> PosetBehaviour for Poset<T, F> where F: PartialOrderBehaviour<Element = T> {
    type POrder = F;

    closed spec fn spec_elements(&self) -> Seq<T> {
        self.elements@
    }

    open spec fn orders_as(&self, p: &F) -> bool {
        forall|a: T, b: T| #[trigger] self.spec_ge(a, b) == p.spec_ge(a, b)
    }

    fn add(&mut self, element: T) {
        self.elements.push(element);
    }

    fn elements(&self) -> (r: &[T]) {
        self.elements.as_slice()
    }

    fn replace_elements(&mut self, elements: Vec<T>) {
        self.elements = elements;
    }

    fn replace_partial_order(&mut self, p_ord: F) {
        self.compare = p_ord;
    }

    fn cardinality(&self) -> (r: usize) {
        self.elements.len()
    }

    fn partial_order(&self) -> (r: &F) {
        &self.compare
    }

    fn maxima(&self) -> (r: Result<Vec<&T>, PosetError>) {
        if self.elements.len() == 0 {
            return Ok(Vec::new());
        }
        let m = self.extremes(true);
        if m.len() == 0 {
            return Err(PosetError::NoMaxima);
        }
        Ok(m)
    }

    fn minima(&self) -> (r: Result<Vec<&T>, PosetError>) {
        if self.elements.len() == 0 {
            return Ok(Vec::new());
        }
        let m = self.extremes(false);
        if m.len() == 0 {
            return Err(PosetError::NoMinima);
        }
        Ok(m)
    }

    fn cover(&self, x: &T, y: &T) -> (r: bool) {
        if !self.gt(y, x) {
            return false;
        }
        let mut j: usize = 0;
        while j < self.elements.len()
            invariant
                j <= self.elements@.len(),
                forall|k: int|
                    0 <= k < j ==> !(spec_lt(self, *x, #[trigger] self.elements@[k]) && spec_lt(
                        self,
                        self.elements@[k],
                        *y,
                    )),
            decreases self.elements@.len() - j,
        {
            let z = &self.elements[j];
            if self.lt(x, z) && self.lt(z, y) {
                return false;
            }
            j += 1;
        }
        true
    }

    fn cover_in_pool(&self, x: &T, y: &T, pool: &[usize]) -> (r: bool) {
        let ghost pv = pool_values(self.elements@, pool@);
        if !self.gt(y, x) {
            return false;
        }
        let mut j: usize = 0;
        while j < pool.len()
            invariant
                j <= pool@.len(),
                pv == pool_values(self.elements@, pool@),
                pool_in_bounds(pool@, self.elements@.len() as int),
                forall|k: int|
                    0 <= k < j ==> !(spec_lt(self, *x, #[trigger] pv[k]) && spec_lt(self, pv[k], *y)),
            decreases pool@.len() - j,
        {
            let z = &self.elements[pool[j]];
            assert(pv[j as int] == self.elements@[pool@[j as int] as int]);
            if self.lt(x, z) && self.lt(z, y) {
                return false;
            }
            j += 1;
        }
        true
    }
}

} // verus!

use crate::errors::PosetError;
use std::cmp::Ordering;
use vstd::prelude::*;

verus! {

/// `a > b`: `a >= b` holds and `b >= a` does not.
pub open spec fn spec_gt(ab: bool, ba: bool) -> bool {
    ab && !ba
}

/// `a == b` in the order: each is greater than or equal to the other.
pub open spec fn spec_eq(ab: bool, ba: bool) -> bool {
    ab && ba
}

/// `a` and `b` are comparable: one is greater than or equal to the other.
pub open spec fn spec_cp(ab: bool, ba: bool) -> bool {
    ab || ba
}

/// `a` and `b` are incomparable: neither is greater than or equal to the other.
pub open spec fn spec_ip(ab: bool, ba: bool) -> bool {
    !ab && !ba
}

/// The partial comparison that the two directions of `>=` determine.
pub open spec fn spec_pc(ab: bool, ba: bool) -> Option<Ordering> {
    if ab && ba {
        Some(Ordering::Equal)
    } else if ab {
        Some(Ordering::Greater)
    } else if ba {
        Some(Ordering::Less)
    } else {
        None
    }
}

/// A partial order, given by its "greater than or equal to" relation.
///
/// Every other comparison is derived from `ge`. Implementing this trait does not make the
/// relation a partial order: reflexivity, antisymmetry and transitivity are up to the
/// implementor.
pub trait PartialOrderBehaviour {
    /// The type of the elements that the order compares.
    type Element;

    /// Whether `a >= b`, as a mathematical relation.
    spec fn spec_ge(&self, a: Self::Element, b: Self::Element) -> bool;

    /// Returns whether `a >= b` in the partial order.
    fn ge(&self, a: &Self::Element, b: &Self::Element) -> (r: bool)
        ensures
            r == self.spec_ge(*a, *b),
    ;

    /// Returns a partial order comparison between two elements.
    fn pc(&self, a: &Self::Element, b: &Self::Element) -> (r: Option<Ordering>)
        ensures
            r == spec_pc(self.spec_ge(*a, *b), self.spec_ge(*b, *a)),
    {
        let ab = self.ge(a, b);
        let ba = self.ge(b, a);
        if ab && ba {
            Some(Ordering::Equal)
        } else if ab {
            Some(Ordering::Greater)
        } else if ba {
            Some(Ordering::Less)
        } else {
            None
        }
    }

    /// Returns whether `a <= b` in the partial order.
    fn le(&self, a: &Self::Element, b: &Self::Element) -> (r: bool)
        ensures
            r == self.spec_ge(*b, *a),
    {
        self.ge(b, a)
    }

    /// Returns whether `a > b` in the partial order.
    fn gt(&self, a: &Self::Element, b: &Self::Element) -> (r: bool)
        ensures
            r == spec_gt(self.spec_ge(*a, *b), self.spec_ge(*b, *a)),
    {
        self.ge(a, b) && !self.ge(b, a)
    }

    /// Returns whether `a < b` in the partial order.
    fn lt(&self, a: &Self::Element, b: &Self::Element) -> (r: bool)
        ensures
            r == spec_gt(self.spec_ge(*b, *a), self.spec_ge(*a, *b)),
    {
        self.ge(b, a) && !self.ge(a, b)
    }

    /// Returns whether `a == b` in the partial order.
    fn eq(&self, a: &Self::Element, b: &Self::Element) -> (r: bool)
        ensures
            r == spec_eq(self.spec_ge(*a, *b), self.spec_ge(*b, *a)),
    {
        self.ge(a, b) && self.ge(b, a)
    }

    /// Returns whether `a` is incomparable with `b` in the partial order.
    fn ip(&self, a: &Self::Element, b: &Self::Element) -> (r: bool)
        ensures
            r == spec_ip(self.spec_ge(*a, *b), self.spec_ge(*b, *a)),
    {
        !self.ge(a, b) && !self.ge(b, a)
    }

    /// Returns whether `a` is comparable with `b` in the partial order.
    fn cp(&self, a: &Self::Element, b: &Self::Element) -> (r: bool)
        ensures
            r == spec_cp(self.spec_ge(*a, *b), self.spec_ge(*b, *a)),
    {
        self.ge(a, b) || self.ge(b, a)
    }
}


/// For any order and any two elements: they are comparable exactly when one is greater than or
/// equal to the other, incomparable exactly when they are not comparable, and exactly one of
/// `a < b`, `a == b`, `a > b` and incomparability holds.
pub proof fn lemma_comparisons<P: PartialOrderBehaviour>(p: &P, a: P::Element, b: P::Element)
    ensures
        ({
            let ab = p.spec_ge(a, b);
            let ba = p.spec_ge(b, a);
            let lt = spec_gt(ba, ab);
            let eq = spec_eq(ab, ba);
            let gt = spec_gt(ab, ba);
            let ip = spec_ip(ab, ba);
            &&& spec_cp(ab, ba) == (ab || ba)
            &&& ip == !spec_cp(ab, ba)
            &&& lt || eq || gt || ip
            &&& !(lt && eq) && !(lt && gt) && !(lt && ip)
            &&& !(eq && gt) && !(eq && ip) && !(gt && ip)
        }),
{
}

/// For any order and any two elements, the partial comparison is `Equal` exactly when they are
/// equal, `Greater` exactly when `a > b`, `Less` exactly when `a < b`, and none exactly when
/// they are incomparable.
pub proof fn lemma_partial_comparison<P: PartialOrderBehaviour>(
    p: &P,
    a: P::Element,
    b: P::Element,
)
    ensures
        ({
            let ab = p.spec_ge(a, b);
            let ba = p.spec_ge(b, a);
            &&& (spec_pc(ab, ba) == Some(Ordering::Equal)) == spec_eq(ab, ba)
            &&& (spec_pc(ab, ba) == Some(Ordering::Greater)) == spec_gt(ab, ba)
            &&& (spec_pc(ab, ba) == Some(Ordering::Less)) == spec_gt(ba, ab)
            &&& (spec_pc(ab, ba) is None) == spec_ip(ab, ba)
        }),
{
}

/// `a < b` under the order `p`.
pub open spec fn spec_lt<P: PartialOrderBehaviour>(p: &P, a: P::Element, b: P::Element) -> bool {
    p.spec_ge(b, a) && !p.spec_ge(a, b)
}

/// No element of `s` lies strictly above `v`.
pub open spec fn is_maximal_in<P: PartialOrderBehaviour>(
    p: &P,
    s: Seq<P::Element>,
    v: P::Element,
) -> bool {
    forall|k: int| 0 <= k < s.len() ==> !spec_lt(p, v, #[trigger] s[k])
}

/// No element of `s` lies strictly below `v`.
pub open spec fn is_minimal_in<P: PartialOrderBehaviour>(
    p: &P,
    s: Seq<P::Element>,
    v: P::Element,
) -> bool {
    forall|k: int| 0 <= k < s.len() ==> !spec_lt(p, #[trigger] s[k], v)
}

/// The test for a maximal element of `s`.
pub open spec fn maximal_pred<P: PartialOrderBehaviour>(p: &P, s: Seq<P::Element>) -> spec_fn(
    P::Element,
) -> bool {
    |v: P::Element| is_maximal_in(p, s, v)
}

/// The test for a minimal element of `s`.
pub open spec fn minimal_pred<P: PartialOrderBehaviour>(p: &P, s: Seq<P::Element>) -> spec_fn(
    P::Element,
) -> bool {
    |v: P::Element| is_minimal_in(p, s, v)
}

/// The maximal elements of `s`, in the order in which they stand in `s`.
pub open spec fn maxima_of<P: PartialOrderBehaviour>(p: &P, s: Seq<P::Element>) -> Seq<
    P::Element,
> {
    s.filter(maximal_pred(p, s))
}

/// The minimal elements of `s`, in the order in which they stand in `s`.
pub open spec fn minima_of<P: PartialOrderBehaviour>(p: &P, s: Seq<P::Element>) -> Seq<
    P::Element,
> {
    s.filter(minimal_pred(p, s))
}

/// `y` lies strictly above `x` and no element of `s` lies strictly between them.
pub open spec fn covers_within<P: PartialOrderBehaviour>(
    p: &P,
    x: P::Element,
    y: P::Element,
    s: Seq<P::Element>,
) -> bool {
    &&& spec_lt(p, x, y)
    &&& forall|k: int| 0 <= k < s.len() ==> !(spec_lt(p, x, #[trigger] s[k]) && spec_lt(p, s[k], y))
}

/// The values that a sequence of references points to.
pub open spec fn deref_seq<E>(s: Seq<&E>) -> Seq<E> {
    s.map_values(|x: &E| *x)
}

/// The elements of `s` that the positions in `pool` pick out.
pub open spec fn pool_values<E>(s: Seq<E>, pool: Seq<usize>) -> Seq<E> {
    pool.map_values(|i: usize| s[i as int])
}

/// Every position in `pool` is a position of a sequence of length `n`.
pub open spec fn pool_in_bounds(pool: Seq<usize>, n: int) -> bool {
    forall|k: int| 0 <= k < pool.len() ==> #[trigger] pool[k] < n
}

/// The test for a position of `pool` whose element is minimal among the elements of `pool`.
pub open spec fn pool_minimal_pred<P: PartialOrderBehaviour>(
    p: &P,
    s: Seq<P::Element>,
    pool: Seq<usize>,
) -> spec_fn(usize) -> bool {
    |i: usize| is_minimal_in(p, pool_values(s, pool), s[i as int])
}

/// Position `m` of `pool` holds the first element of `pool` that covers `s[x]` within `pool`.
pub open spec fn is_first_cover<P: PartialOrderBehaviour>(
    p: &P,
    s: Seq<P::Element>,
    pool: Seq<usize>,
    x: usize,
    m: int,
) -> bool {
    &&& 0 <= m < pool.len()
    &&& covers_within(p, s[x as int], s[pool[m] as int], pool_values(s, pool))
    &&& forall|j: int|
        0 <= j < m ==> !covers_within(p, s[x as int], s[#[trigger] pool[j] as int], pool_values(s, pool))
}

/// No element of `pool` covers `s[x]` within `pool`.
pub open spec fn has_no_cover<P: PartialOrderBehaviour>(
    p: &P,
    s: Seq<P::Element>,
    pool: Seq<usize>,
    x: usize,
) -> bool {
    forall|j: int|
        0 <= j < pool.len() ==> !covers_within(p, s[x as int], s[#[trigger] pool[j] as int], pool_values(s, pool))
}

/// The positions of `pool` that `chain` does not hold.
pub open spec fn pool_without(pool: Seq<usize>, chain: Seq<usize>) -> Seq<usize> {
    pool.filter(|i: usize| !chain.contains(i))
}

/// `chain` is the chain that greedy extraction grows in `pool`: it starts at the first minimal
/// element of `pool`, each next element is the first element of `pool` that covers the one
/// before it within `pool`, and it stops where no element covers its last one, or where it is
/// as long as `pool`.
pub open spec fn is_greedy_chain<P: PartialOrderBehaviour>(
    p: &P,
    s: Seq<P::Element>,
    pool: Seq<usize>,
    chain: Seq<usize>,
) -> bool {
    &&& chain.len() >= 1
    &&& pool.filter(pool_minimal_pred(p, s, pool)).len() > 0
    &&& chain[0] == pool.filter(pool_minimal_pred(p, s, pool))[0]
    &&& forall|a: int|
        0 <= a < chain.len() - 1 ==> exists|m: int|
            is_first_cover(p, s, pool, #[trigger] chain[a], m) && pool[m] == chain[a + 1]
    &&& chain.len() == pool.len() || has_no_cover(p, s, pool, chain.last())
}

/// Each element of `chain` lies strictly below every later one.
pub open spec fn is_ascending<P: PartialOrderBehaviour>(p: &P, chain: Seq<P::Element>) -> bool {
    forall|a: int, b: int| 0 <= a < b < chain.len() ==> spec_lt(p, #[trigger] chain[a], #[trigger] chain[b])
}

/// `f` lists each position below `n` exactly once.
pub open spec fn is_position_permutation(f: Seq<usize>, n: int) -> bool {
    &&& f.no_duplicates()
    &&& forall|k: int| 0 <= k < f.len() ==> #[trigger] f[k] < n
    &&& forall|k: usize| k < n ==> #[trigger] f.contains(k)
}

/// The values of a sequence of chains of references.
pub open spec fn chain_values<E>(r: Seq<Vec<&E>>) -> Seq<Seq<E>> {
    r.map_values(|c: Vec<&E>| deref_seq(c@))
}

/// The values of a sequence of chains of positions of `s`.
pub open spec fn index_chain_values<E>(s: Seq<E>, idx: Seq<Seq<usize>>) -> Seq<Seq<E>> {
    idx.map_values(|c: Seq<usize>| pool_values(s, c))
}

/// `idx` is a chain decomposition of the poset whose elements are `s`, given by positions:
/// no chain is empty, and where `>=` is transitive, the chains together hold each position
/// exactly once and each chain ascends.
pub open spec fn is_chain_cover<P: PartialOrderBehaviour>(
    p: &P,
    s: Seq<P::Element>,
    idx: Seq<Seq<usize>>,
) -> bool {
    &&& forall|i: int| 0 <= i < idx.len() ==> #[trigger] idx[i].len() > 0
    &&& is_transitive(p) ==> is_position_permutation(idx.flatten(), s.len() as int)
    &&& is_transitive(p) ==> forall|i: int|
        0 <= i < idx.len() ==> is_ascending(p, pool_values(s, #[trigger] idx[i]))
}

/// `>=` is transitive.
pub open spec fn is_transitive<P: PartialOrderBehaviour>(p: &P) -> bool {
    forall|a: P::Element, b: P::Element, c: P::Element|
        #[trigger] p.spec_ge(a, b) && #[trigger] p.spec_ge(b, c) ==> p.spec_ge(a, c)
}

/// Under a transitive `>=`, `<` is transitive.
pub proof fn lemma_lt_transitive<P: PartialOrderBehaviour>(
    p: &P,
    a: P::Element,
    b: P::Element,
    c: P::Element,
)
    requires
        is_transitive(p),
        spec_lt(p, a, b),
        spec_lt(p, b, c),
    ensures
        spec_lt(p, a, c),
{
    assert(p.spec_ge(c, b) && p.spec_ge(b, a));
    if p.spec_ge(a, c) {
        assert(p.spec_ge(a, c) && p.spec_ge(c, b));
    }
}

/// The behaviour of a poset: a sequence of elements together with a partial order on them.
pub trait PosetBehaviour: PartialOrderBehaviour + Sized {
    /// The type of the partial order that the poset holds.
    type POrder: PartialOrderBehaviour<Element = Self::Element>;

    /// The elements of the poset, in the order in which they were added.
    spec fn spec_elements(&self) -> Seq<Self::Element>;

    /// Whether the poset compares as `p` does.
    spec fn orders_as(&self, p: &Self::POrder) -> bool;

    /// Add an element to the poset.
    fn add(&mut self, element: Self::Element)
        ensures
            final(self).spec_elements() == old(self).spec_elements().push(element),
            forall|a: Self::Element, b: Self::Element|
                #[trigger] final(self).spec_ge(a, b) == old(self).spec_ge(a, b),
    ;

    /// The elements of the poset.
    fn elements(&self) -> (r: &[Self::Element])
        ensures
            r@ == self.spec_elements(),
    ;

    /// Replace the elements of the poset.
    fn replace_elements(&mut self, elements: Vec<Self::Element>)
        ensures
            final(self).spec_elements() == elements@,
            forall|a: Self::Element, b: Self::Element|
                #[trigger] final(self).spec_ge(a, b) == old(self).spec_ge(a, b),
    ;

    /// Replace the partial order of the poset.
    fn replace_partial_order(&mut self, p_ord: Self::POrder)
        ensures
            final(self).spec_elements() == old(self).spec_elements(),
            final(self).orders_as(&p_ord),
    ;

    /// The number of elements of the poset.
    fn cardinality(&self) -> (r: usize)
        ensures
            r == self.spec_elements().len(),
    ;

    /// The partial order of the poset.
    fn partial_order(&self) -> (r: &Self::POrder)
        ensures
            self.orders_as(r),
    ;

    /// The maximal elements of the poset. A non-empty poset without one has no valid partial
    /// order, and gives `NoMaxima`.
    fn maxima(&self) -> (r: Result<Vec<&Self::Element>, PosetError>)
        ensures
            self.spec_elements().len() == 0 ==> r is Ok && r->Ok_0@.len() == 0,
            r is Ok ==> deref_seq(r->Ok_0@) == maxima_of(self, self.spec_elements()),
            r is Err <==> (self.spec_elements().len() > 0 && maxima_of(
                self,
                self.spec_elements(),
            ).len() == 0),
            r is Err ==> r->Err_0 == PosetError::NoMaxima,
    ;

    /// The minimal elements of the poset. A non-empty poset without one has no valid partial
    /// order, and gives `NoMinima`.
    fn minima(&self) -> (r: Result<Vec<&Self::Element>, PosetError>)
        ensures
            self.spec_elements().len() == 0 ==> r is Ok && r->Ok_0@.len() == 0,
            r is Ok ==> deref_seq(r->Ok_0@) == minima_of(self, self.spec_elements()),
            r is Err <==> (self.spec_elements().len() > 0 && minima_of(
                self,
                self.spec_elements(),
            ).len() == 0),
            r is Err ==> r->Err_0 == PosetError::NoMinima,
    ;

    /// Whether `y` covers `x`: `y > x` with no element of the poset strictly between them.
    fn cover(&self, x: &Self::Element, y: &Self::Element) -> (r: bool)
        ensures
            r == covers_within(self, *x, *y, self.spec_elements()),
    ;

    /// Whether `y` covers `x` among the elements at the positions in `pool`.
    fn cover_in_pool(&self, x: &Self::Element, y: &Self::Element, pool: &[usize]) -> (r: bool)
        requires
            pool_in_bounds(pool@, self.spec_elements().len() as int),
        ensures
            r == covers_within(self, *x, *y, pool_values(self.spec_elements(), pool@)),
    ;
}

} // verus!

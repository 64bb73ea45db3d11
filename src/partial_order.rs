use crate::traits::PartialOrderBehaviour;
use std::marker::PhantomData;
use vstd::prelude::*;

verus! {

/// Whether a comparison function may be called on any two elements and always gives the same
/// answer for the same two elements.
pub open spec fn is_total_function<T, F: Fn(&T, &T) -> bool>(f: F) -> bool {
    &&& forall|a: &T, b: &T| #[trigger] call_requires(f, (a, b))
    &&& forall|a: &T, b: &T, r1: bool, r2: bool|
        #[trigger] call_ensures(f, (a, b), r1) && #[trigger] call_ensures(f, (a, b), r2) ==> r1
            == r2
}

/// A partial order over `T`, held as the function that decides whether one element is greater
/// than or equal to another.
pub struct PartialOrder<T, F> where F: Fn(&T, &T) -> bool {
    ge: F,
    _marker: PhantomData<T>,
}

impl<T, F> PartialOrder<T, F> where F: Fn(&T, &T) -> bool {
    #[verifier::type_invariant]
    spec fn inv(self) -> bool {
        is_total_function(self.ge)
    }

    /// Construct a new `PartialOrder` from its "greater than or equal to" function.
    pub fn new(ge: F) -> (r: PartialOrder<T, F>)
        requires
            is_total_function(ge),
        ensures
            forall|a: T, b: T| r.spec_ge(a, b) == call_ensures(ge, (&a, &b), true),
    {
        PartialOrder { ge, _marker: PhantomData }
    }
}

impl<T, F> PartialOrderBehaviour for PartialOrder<T, F> where F: Fn(&T, &T) -> bool {
    type Element = T;

    closed spec fn spec_ge(&self, a: T, b: T) -> bool {
        call_ensures(self.ge, (&a, &b), true)
    }

    fn ge(&self, a: &T, b: &T) -> (r: bool) {
        proof {
            use_type_invariant(self);
        }
        (self.ge)(a, b)
    }
}

} // verus!

use vstd::prelude::*;

verus! {

/// Errors that can occur while analysing a poset, when the relation is not a valid partial order.
#[derive(Clone, Copy, Debug, PartialEq, Eq, Structural)]
pub enum PosetError {
    /// A non-empty poset has no maximal element.
    NoMaxima,
    /// A non-empty poset has no minimal element.
    NoMinima,
    /// A non-empty pool of elements has no minimal element.
    NoMinimalInPool,
}

impl PosetError {
    /// A human-readable description of the error.
    pub fn message(&self) -> (r: &'static str)
        ensures
            *self == PosetError::NoMaxima ==> r@ == "non-empty poset should have a maximal element"@,
            *self == PosetError::NoMinima ==> r@ == "non-empty poset should have a minimal element"@,
            *self == PosetError::NoMinimalInPool ==> r@ == "there should be a minimal element"@,
    {
        match self {
            PosetError::NoMaxima => "non-empty poset should have a maximal element",
            PosetError::NoMinima => "non-empty poset should have a minimal element",
            PosetError::NoMinimalInPool => "there should be a minimal element",
        }
    }
}

} // verus!

//! Adaptive random testing (ART) strategies over a bounded n-dimensional
//! integer domain: a KD-tree-backed dispersion engine (incremental spatial
//! index, exact and visit-bounded minimum-distance queries, and the greedy
//! farthest-candidate selection loop), together with the flat-array (FSCS),
//! latin-hypercube (LHS) and uniform-random peer strategies.
//!
//! All distances are squared Euclidean distances kept in exact integer
//! arithmetic; every comparison the algorithms make is order-preserving
//! under squaring, so selection and query behaviour is unchanged.
use vstd::prelude::*;

pub mod bounded;
pub mod drivers;
pub mod fscs;
pub mod kdfc;
pub mod lhs;
pub mod node;
pub mod point;
pub mod query;
pub mod rt;

verus! {

/// Caller-contract violations and fatal construction errors.
#[derive(Clone, Copy, Debug, PartialEq, Eq, Structural)]
pub enum ArtError {
    /// A distance or insertion was asked of points whose dimension does not
    /// match the tree's domain.
    DimensionMismatch,
    /// A domain interval has `low >= high`, or is not a (low, high) pair.
    DomainMalformed,
    /// A bounded-query budget table is shorter than the run can index.
    BudgetTableUndersized,
}

/// A geometric fault-region predicate, consumed by the effectiveness
/// drivers through `find_target` alone. Implementations live outside the
/// verified core (their geometry is randomized floating-point); the drivers
/// state what holds whatever an implementation answers.
pub trait FaultZone {
    /// True when the generated point hits the fault region.
    fn find_target(&self, p: &point::Point) -> bool;
}

/// Bounds for an n-dimensional search space: `n_dims` intervals, all fixed
/// to `[-5000, 5000]`.
pub fn generate_bounds(n_dims: usize) -> (bounds: Vec<Vec<i32>>)
    ensures
        bounds@.len() == n_dims,
        point::domain_wf(bounds.deep_view()),
        forall|i: int|
            0 <= i < n_dims ==> (#[trigger] bounds@[i])@ =~= seq![-5000i32, 5000i32],
{
    let mut bounds: Vec<Vec<i32>> = Vec::new();
    let mut i: usize = 0;
    while i < n_dims
        invariant
            i <= n_dims,
            bounds@.len() == i,
            forall|j: int| 0 <= j < i ==> (#[trigger] bounds@[j])@ =~= seq![-5000i32, 5000i32],
        decreases n_dims - i,
    {
        let mut pair: Vec<i32> = Vec::new();
        pair.push(-5000);
        pair.push(5000);
        bounds.push(pair);
        i += 1;
    }
    bounds
}

} // verus!

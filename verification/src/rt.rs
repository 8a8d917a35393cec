//! The uniform-random baseline strategy: generate points with no
//! dispersion at all, as the reference peer the adaptive strategies are
//! compared against.
use vstd::prelude::*;
use crate::FaultZone;
use crate::point::Point;
use crate::point::copy_bounds;
use crate::point::domain_wf;

verus! {

pub struct Rt {
    /// The n (low, high) interval pairs bounding the search space.
    pub input_domain: Vec<Vec<i32>>,
}

impl Default for Rt {
    /// The same strategy `new` builds.
    fn default() -> (s: Self)
        ensures
            s.input_domain@.len() == 0,
    {
        Self::new()
    }
}

impl Rt {
    /// A strategy with an empty domain.
    pub fn new() -> (s: Self)
        ensures
            s.input_domain@.len() == 0,
    {
        Rt { input_domain: Vec::new() }
    }

    /// Effectiveness run: sample uniformly until the fault zone reports a
    /// hit or `max_tries` points have been generated; returns the
    /// generated count (0 only when `max_tries` is 0).
    pub fn test_rt_effectiveness<F: FaultZone>(
        &mut self,
        bound: &Vec<Vec<i32>>,
        fzb: &F,
        max_tries: usize,
    ) -> (r: usize)
        requires
            domain_wf(bound.deep_view()),
        ensures
            r <= max_tries,
            max_tries >= 1 ==> 1 <= r,
            final(self).input_domain.deep_view() =~= bound.deep_view(),
    {
        self.input_domain = copy_bounds(bound);
        let mut n_generated: usize = 0;
        while n_generated < max_tries
            invariant
                domain_wf(bound.deep_view()),
                n_generated <= max_tries,
                self.input_domain.deep_view() =~= bound.deep_view(),
            decreases max_tries - n_generated,
        {
            let test_case = Point::generate_rand_p(bound);
            n_generated += 1;
            if fzb.find_target(&test_case) {
                return n_generated;
            }
        }
        n_generated
    }

    /// Throughput run: draw `n_generated_values` points and discard them.
    pub fn test_random_art_efficiency(&mut self, n_generated_values: i32, bound: &Vec<Vec<i32>>)
        requires
            domain_wf(bound.deep_view()),
        ensures
            final(self).input_domain.deep_view() =~= bound.deep_view(),
    {
        self.input_domain = copy_bounds(bound);
        let mut i: i32 = 0;
        while i < n_generated_values
            invariant
                domain_wf(bound.deep_view()),
                self.input_domain.deep_view() =~= bound.deep_view(),
            decreases n_generated_values - i,
        {
            Point::generate_rand_p(bound);
            i += 1;
        }
    }
}

} // verus!

//! The generation loop over the KD index: sample a candidate batch, score
//! each candidate by its minimum distance to the points already inserted,
//! insert the farthest candidate, and stop on a fault hit or when the try
//! budget is exhausted.
//!
//! The farthest-candidate selection is deterministic and proved so: the
//! selected index carries the greatest minimum distance of the batch, and
//! every earlier candidate scores strictly less (ties keep the first).
use vstd::prelude::*;
use crate::ArtError;
use crate::FaultZone;
use crate::bounded::bounded_result;
use crate::kdfc::KdfcArt;
use crate::node::all_in_domain;
use crate::node::lemma_all_in_domain_insert;
use crate::point::Point;
use crate::point::in_domain;
use crate::query::min_sqd;

verus! {

impl KdfcArt {
    /// One batch of `candidate_num` points drawn uniformly from the domain.
    fn sample_candidates(&self) -> (v: Vec<Point>)
        requires
            self.inv(),
        ensures
            v@.len() == self.candidate_num,
            v@.len() >= 1,
            forall|i: int|
                0 <= i < v@.len() ==> (#[trigger] v@[i]).wf() && v@[i]@.len() == self.dims()
                    && in_domain(v@[i]@, self.input_domain.deep_view()),
    {
        let mut v: Vec<Point> = Vec::new();
        let mut c: i32 = 0;
        while c < self.candidate_num
            invariant
                self.inv(),
                0 <= c <= self.candidate_num,
                v@.len() == c,
                forall|i: int|
                    0 <= i < v@.len() ==> (#[trigger] v@[i]).wf() && v@[i]@.len() == self.dims()
                        && in_domain(v@[i]@, self.input_domain.deep_view()),
            decreases self.candidate_num - c,
        {
            v.push(Point::generate_rand_p(&self.input_domain));
            c += 1;
        }
        v
    }

    /// Greedy maximin selection under the exact query: the index of the
    /// candidate whose minimum squared distance to the inserted points is
    /// greatest; of equal scores the first sampled index is kept.
    pub fn select_candidate_full(&self, can_d: &Vec<Point>) -> (idx: usize)
        requires
            self.inv(),
            self.size >= 1,
            can_d@.len() >= 1,
            forall|i: int|
                0 <= i < can_d@.len() ==> (#[trigger] can_d@[i]).wf() && can_d@[i]@.len()
                    == self.dims(),
        ensures
            idx < can_d@.len(),
            forall|j: int|
                0 <= j < can_d@.len() ==> min_sqd(#[trigger] can_d@[j]@, self.pts()) <= min_sqd(
                    can_d@[idx as int]@,
                    self.pts(),
                ),
            forall|j: int|
                0 <= j < idx ==> min_sqd(#[trigger] can_d@[j]@, self.pts()) < min_sqd(
                    can_d@[idx as int]@,
                    self.pts(),
                ),
    {
        let mut final_idx: usize = 0;
        let mut distance = self.get_min_dis_by_all(&can_d[0]);
        let mut c: usize = 1;
        while c < can_d.len()
            invariant
                self.inv(),
                self.size >= 1,
                1 <= c <= can_d@.len(),
                final_idx < c,
                forall|i: int|
                    0 <= i < can_d@.len() ==> (#[trigger] can_d@[i]).wf() && can_d@[i]@.len()
                        == self.dims(),
                distance == min_sqd(can_d@[final_idx as int]@, self.pts()),
                forall|j: int|
                    0 <= j < c ==> min_sqd(#[trigger] can_d@[j]@, self.pts()) <= distance,
                forall|j: int| 0 <= j < final_idx ==> min_sqd(#[trigger] can_d@[j]@, self.pts()) < distance,
            decreases can_d@.len() - c,
        {
            let d = self.get_min_dis_by_all(&can_d[c]);
            if distance < d {
                distance = d;
                final_idx = c;
            }
            c += 1;
        }
        final_idx
    }

    /// Greedy maximin selection under the bounded query with budget
    /// `back`: the same argmax and first-of-equals rule, scored by the
    /// bounded query's (deterministic) result.
    pub fn select_candidate_bounded(&self, can_d: &Vec<Point>, back: usize) -> (idx: usize)
        requires
            self.inv(),
            self.size >= 1,
            can_d@.len() >= 1,
            forall|i: int|
                0 <= i < can_d@.len() ==> (#[trigger] can_d@[i]).wf() && can_d@[i]@.len()
                    == self.dims(),
        ensures
            idx < can_d@.len(),
            forall|j: int|
                0 <= j < can_d@.len() ==> bounded_result(*self, #[trigger] can_d@[j]@, back as int)
                    <= bounded_result(*self, can_d@[idx as int]@, back as int),
            forall|j: int|
                0 <= j < idx ==> bounded_result(*self, #[trigger] can_d@[j]@, back as int)
                    < bounded_result(*self, can_d@[idx as int]@, back as int),
    {
        let mut final_idx: usize = 0;
        let mut distance = self.get_min_dis_by_backtracking(&can_d[0], back);
        let mut c: usize = 1;
        while c < can_d.len()
            invariant
                self.inv(),
                self.size >= 1,
                1 <= c <= can_d@.len(),
                final_idx < c,
                forall|i: int|
                    0 <= i < can_d@.len() ==> (#[trigger] can_d@[i]).wf() && can_d@[i]@.len()
                        == self.dims(),
                distance == bounded_result(*self, can_d@[final_idx as int]@, back as int),
                forall|j: int|
                    0 <= j < c ==> bounded_result(*self, #[trigger] can_d@[j]@, back as int)
                        <= distance,
                forall|j: int|
                    0 <= j < final_idx ==> bounded_result(*self, #[trigger] can_d@[j]@, back as int)
                        < distance,
            decreases can_d@.len() - c,
        {
            let d = self.get_min_dis_by_backtracking(&can_d[c], back);
            if distance < d {
                distance = d;
                final_idx = c;
            }
            c += 1;
        }
        final_idx
    }

    /// Effectiveness run under turn-based insertion and the exact query:
    /// insert one random point, then farthest candidates, until the fault
    /// zone reports a hit or `max_tries` points have been generated. The
    /// generated count is `self.size`; the result says whether the zone
    /// was hit, and on a miss the budget was exhausted exactly. Every
    /// generated point lies in the domain.
    pub fn test_naive_kdfc_effectiveness<F: FaultZone>(&mut self, fault_zone: &F, max_tries: usize) -> (hit:
        bool)
        requires
            old(self).inv(),
            old(self).size == 0,
            old(self).dims() >= 1,
            max_tries >= 1,
        ensures
            final(self).inv(),
            1 <= final(self).size <= max_tries,
            !hit ==> final(self).size == max_tries,
            final(self).input_domain == old(self).input_domain,
            all_in_domain(final(self).pts(), old(self).input_domain.deep_view()),
    {
        let p = Point::generate_rand_p(&self.input_domain);
        let ghost empty = self.pts();
        self.insert_point_by_turn(&p);
        proof {
            lemma_all_in_domain_insert(
                self.pts(),
                empty,
                p@,
                old(self).input_domain.deep_view(),
            );
        }
        if fault_zone.find_target(&p) {
            return true;
        }
        while self.size < max_tries
            invariant
                self.inv(),
                1 <= self.size <= max_tries,
                self.dims() >= 1,
                self.input_domain == old(self).input_domain,
                all_in_domain(self.pts(), old(self).input_domain.deep_view()),
            decreases max_tries - self.size,
        {
            let can_d = self.sample_candidates();
            let idx = self.select_candidate_full(&can_d);
            let winner = &can_d[idx];
            let ghost prev = self.pts();
            self.insert_point_by_turn(winner);
            proof {
                lemma_all_in_domain_insert(
                    self.pts(),
                    prev,
                    winner@,
                    old(self).input_domain.deep_view(),
                );
            }
            if fault_zone.find_target(winner) {
                return true;
            }
        }
        false
    }

    /// Effectiveness run under spread-maximizing insertion and the exact
    /// query; the result says whether the zone was hit, and on a miss the
    /// budget was exhausted exactly. Every generated point lies in the
    /// domain.
    pub fn test_semi_bal_kdfc_effectiveness<F: FaultZone>(&mut self, fzb: &F, max_tries: usize) -> (hit:
        bool)
        requires
            old(self).inv(),
            old(self).bnd_inv(),
            old(self).size == 0,
            old(self).dims() >= 1,
            max_tries >= 1,
        ensures
            final(self).inv(),
            final(self).bnd_inv(),
            1 <= final(self).size <= max_tries,
            !hit ==> final(self).size == max_tries,
            final(self).input_domain == old(self).input_domain,
            all_in_domain(final(self).pts(), old(self).input_domain.deep_view()),
    {
        let p = Point::generate_rand_p(&self.input_domain);
        let ghost empty = self.pts();
        self.insert_point_by_strategy(&p);
        proof {
            lemma_all_in_domain_insert(
                self.pts(),
                empty,
                p@,
                old(self).input_domain.deep_view(),
            );
        }
        if fzb.find_target(&p) {
            return true;
        }
        while self.size < max_tries
            invariant
                self.inv(),
                self.bnd_inv(),
                1 <= self.size <= max_tries,
                self.dims() >= 1,
                self.input_domain == old(self).input_domain,
                all_in_domain(self.pts(), old(self).input_domain.deep_view()),
            decreases max_tries - self.size,
        {
            let can_d = self.sample_candidates();
            let idx = self.select_candidate_full(&can_d);
            let winner = &can_d[idx];
            let ghost prev = self.pts();
            self.insert_point_by_strategy(winner);
            proof {
                lemma_all_in_domain_insert(
                    self.pts(),
                    prev,
                    winner@,
                    old(self).input_domain.deep_view(),
                );
            }
            if fzb.find_target(winner) {
                return true;
            }
        }
        false
    }

    /// Effectiveness run under spread-maximizing insertion and the
    /// bounded query, whose per-call budget is `back_num[size]`. A table
    /// shorter than `max_tries` could be indexed beyond its length, so it
    /// is rejected up front with `BudgetTableUndersized` and the tree is
    /// left untouched. A non-positive table entry means an unlimited
    /// budget, as it does in the query itself.
    pub fn test_lim_bal_kdfc_effectiveness<F: FaultZone>(
        &mut self,
        fzb: &F,
        back_num: &Vec<i32>,
        max_tries: usize,
    ) -> (r: Result<bool, ArtError>)
        requires
            old(self).inv(),
            old(self).bnd_inv(),
            old(self).size == 0,
            old(self).dims() >= 1,
            max_tries >= 1,
        ensures
            match r {
                Ok(hit) => {
                    &&& back_num@.len() >= max_tries
                    &&& final(self).inv()
                    &&& final(self).bnd_inv()
                    &&& 1 <= final(self).size <= max_tries
                    &&& (!hit ==> final(self).size == max_tries)
                    &&& final(self).input_domain == old(self).input_domain
                    &&& all_in_domain(final(self).pts(), old(self).input_domain.deep_view())
                },
                Err(e) => {
                    &&& back_num@.len() < max_tries
                    &&& e == ArtError::BudgetTableUndersized
                    &&& *final(self) == *old(self)
                },
            },
    {
        if back_num.len() < max_tries {
            return Err(ArtError::BudgetTableUndersized);
        }
        let p = Point::generate_rand_p(&self.input_domain);
        let ghost empty = self.pts();
        self.insert_point_by_strategy(&p);
        proof {
            lemma_all_in_domain_insert(
                self.pts(),
                empty,
                p@,
                old(self).input_domain.deep_view(),
            );
        }
        if fzb.find_target(&p) {
            return Ok(true);
        }
        while self.size < max_tries
            invariant
                self.inv(),
                self.bnd_inv(),
                1 <= self.size <= max_tries,
                self.dims() >= 1,
                back_num@.len() >= max_tries,
                self.input_domain == old(self).input_domain,
                all_in_domain(self.pts(), old(self).input_domain.deep_view()),
            decreases max_tries - self.size,
        {
            let can_d = self.sample_candidates();
            let entry = back_num[self.size];
            let back: usize = if entry <= 0 {
                0
            } else {
                entry as usize
            };
            let idx = self.select_candidate_bounded(&can_d, back);
            let winner = &can_d[idx];
            let ghost prev = self.pts();
            self.insert_point_by_strategy(winner);
            proof {
                lemma_all_in_domain_insert(
                    self.pts(),
                    prev,
                    winner@,
                    old(self).input_domain.deep_view(),
                );
            }
            if fzb.find_target(winner) {
                return Ok(true);
            }
        }
        Ok(false)
    }

    /// Throughput run under turn-based insertion and the exact query:
    /// generate exactly `point_num` points, all within the domain, with
    /// no fault check.
    pub fn test_naive_kdfc_efficiency(&mut self, point_num: i32)
        requires
            old(self).inv(),
            old(self).size == 0,
            old(self).dims() >= 1,
            point_num >= 1,
        ensures
            final(self).inv(),
            final(self).size == point_num,
            final(self).input_domain == old(self).input_domain,
            all_in_domain(final(self).pts(), old(self).input_domain.deep_view()),
    {
        let p = Point::generate_rand_p(&self.input_domain);
        let ghost empty = self.pts();
        self.insert_point_by_turn(&p);
        proof {
            lemma_all_in_domain_insert(
                self.pts(),
                empty,
                p@,
                old(self).input_domain.deep_view(),
            );
        }
        while self.size < point_num as usize
            invariant
                self.inv(),
                1 <= self.size <= point_num,
                self.dims() >= 1,
                self.input_domain == old(self).input_domain,
                all_in_domain(self.pts(), old(self).input_domain.deep_view()),
            decreases point_num - self.size,
        {
            let can_d = self.sample_candidates();
            let idx = self.select_candidate_full(&can_d);
            let ghost prev = self.pts();
            self.insert_point_by_turn(&can_d[idx]);
            proof {
                lemma_all_in_domain_insert(
                    self.pts(),
                    prev,
                    can_d@[idx as int]@,
                    old(self).input_domain.deep_view(),
                );
            }
        }
    }

    /// Throughput run under spread-maximizing insertion and the exact
    /// query: exactly `point_num` points, all within the domain.
    pub fn test_semi_bal_kdfc_efficiency(&mut self, point_num: i32)
        requires
            old(self).inv(),
            old(self).bnd_inv(),
            old(self).size == 0,
            old(self).dims() >= 1,
            point_num >= 1,
        ensures
            final(self).inv(),
            final(self).bnd_inv(),
            final(self).size == point_num,
            final(self).input_domain == old(self).input_domain,
            all_in_domain(final(self).pts(), old(self).input_domain.deep_view()),
    {
        let p = Point::generate_rand_p(&self.input_domain);
        self.insert_point_by_strategy(&p);
        while self.size < point_num as usize
            invariant
                self.inv(),
                self.bnd_inv(),
                1 <= self.size <= point_num,
                self.dims() >= 1,
                self.input_domain == old(self).input_domain,
            decreases point_num - self.size,
        {
            let can_d = self.sample_candidates();
            let idx = self.select_candidate_full(&can_d);
            self.insert_point_by_strategy(&can_d[idx]);
        }
        proof {
            crate::kdfc::lemma_strategy_tree_points_in_domain(*self);
        }
    }

    /// Throughput run under spread-maximizing insertion and the bounded
    /// query; the budget table must cover `point_num` entries.
    pub fn test_lim_bal_kdfc_efficiency(&mut self, point_num: i32, back_num: &Vec<i32>) -> (r:
        Result<(), ArtError>)
        requires
            old(self).inv(),
            old(self).bnd_inv(),
            old(self).size == 0,
            old(self).dims() >= 1,
            point_num >= 1,
        ensures
            match r {
                Ok(()) => {
                    &&& back_num@.len() >= point_num
                    &&& final(self).inv()
                    &&& final(self).bnd_inv()
                    &&& final(self).size == point_num
                    &&& final(self).input_domain == old(self).input_domain
                    &&& all_in_domain(final(self).pts(), old(self).input_domain.deep_view())
                },
                Err(e) => {
                    &&& back_num@.len() < point_num
                    &&& e == ArtError::BudgetTableUndersized
                    &&& *final(self) == *old(self)
                },
            },
    {
        if back_num.len() < point_num as usize {
            return Err(ArtError::BudgetTableUndersized);
        }
        let p = Point::generate_rand_p(&self.input_domain);
        self.insert_point_by_strategy(&p);
        while self.size < point_num as usize
            invariant
                self.inv(),
                self.bnd_inv(),
                1 <= self.size <= point_num,
                self.dims() >= 1,
                back_num@.len() >= point_num,
                self.input_domain == old(self).input_domain,
            decreases point_num - self.size,
        {
            let can_d = self.sample_candidates();
            let entry = back_num[self.size];
            let back: usize = if entry <= 0 {
                0
            } else {
                entry as usize
            };
            let idx = self.select_candidate_bounded(&can_d, back);
            self.insert_point_by_strategy(&can_d[idx]);
        }
        proof {
            crate::kdfc::lemma_strategy_tree_points_in_domain(*self);
        }
        Ok(())
    }
}

} // verus!

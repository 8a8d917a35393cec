//! The flat-array farthest-candidate strategy (FSCS): the same greedy
//! maximin selection as the KD drivers, scored by brute-force enumeration
//! over every previously generated point instead of a spatial index.
use vstd::prelude::*;
use crate::FaultZone;
use crate::point::Point;
use crate::point::copy_bounds;
use crate::point::domain_wf;
use crate::point::in_domain;
use crate::query::lemma_min_sqd_push;
use crate::query::min_sqd;

verus! {

/// The coordinate views of the first `size` generated points.
pub open spec fn prefix_views(tcp: Seq<Point>, size: int) -> Seq<Seq<i32>> {
    tcp.take(size).map_values(|pt: Point| pt@)
}

pub struct FscsArt {
    /// Batch size for candidate sampling.
    pub cand_num: i32,
    /// The n (low, high) interval pairs bounding the search space.
    pub input_domain: Vec<Vec<i32>>,
}

impl Default for FscsArt {
    /// The same strategy `new` builds.
    fn default() -> (s: Self)
        ensures
            s.cand_num == 10,
            s.input_domain@.len() == 0,
    {
        Self::new()
    }
}

impl FscsArt {
    /// A strategy with the default batch size and an empty domain.
    pub fn new() -> (s: Self)
        ensures
            s.cand_num == 10,
            s.input_domain@.len() == 0,
    {
        FscsArt { cand_num: 10, input_domain: Vec::new() }
    }

    /// A strategy with the given batch size.
    pub fn with_n(n: i32) -> (s: Self)
        ensures
            s.cand_num == n,
            s.input_domain@.len() == 0,
    {
        FscsArt { cand_num: n, input_domain: Vec::new() }
    }

    /// The index of the candidate whose minimum squared distance to the
    /// first `size` generated points is greatest, each score computed by
    /// brute force; of equal scores the first candidate index is kept.
    pub fn find_furthest_candidate(&self, tcp: &Vec<Point>, size: usize, cand_p: &Vec<Point>) -> (r:
        usize)
        requires
            1 <= size <= tcp@.len(),
            cand_p@.len() >= 1,
            forall|j: int|
                0 <= j < size ==> (#[trigger] tcp@[j])@.len() == tcp@[0]@.len(),
            forall|i: int|
                0 <= i < cand_p@.len() ==> (#[trigger] cand_p@[i])@.len() == tcp@[0]@.len(),
        ensures
            r < cand_p@.len(),
            forall|j: int|
                0 <= j < cand_p@.len() ==> min_sqd(
                    #[trigger] cand_p@[j]@,
                    prefix_views(tcp@, size as int),
                ) <= min_sqd(cand_p@[r as int]@, prefix_views(tcp@, size as int)),
            forall|j: int|
                0 <= j < r ==> min_sqd(#[trigger] cand_p@[j]@, prefix_views(tcp@, size as int))
                    < min_sqd(cand_p@[r as int]@, prefix_views(tcp@, size as int)),
    {
        let ghost pref = prefix_views(tcp@, size as int);
        let mut furthest_dist: u128 = 0;
        let mut furthest_index: usize = 0;
        let mut i: usize = 0;
        while i < cand_p.len()
            invariant
                i <= cand_p@.len(),
                cand_p@.len() >= 1,
                1 <= size <= tcp@.len(),
                pref == prefix_views(tcp@, size as int),
                forall|j: int|
                    0 <= j < size ==> (#[trigger] tcp@[j])@.len() == tcp@[0]@.len(),
                forall|j: int|
                    0 <= j < cand_p@.len() ==> (#[trigger] cand_p@[j])@.len() == tcp@[0]@.len(),
                furthest_index < cand_p@.len(),
                i >= 1 ==> furthest_index < i,
                i >= 1 ==> furthest_dist == min_sqd(cand_p@[furthest_index as int]@, pref),
                forall|j: int| 0 <= j < i ==> min_sqd(#[trigger] cand_p@[j]@, pref) <= min_sqd(
                    cand_p@[furthest_index as int]@,
                    pref,
                ),
                i >= 1 ==> forall|j: int|
                    0 <= j < furthest_index ==> min_sqd(#[trigger] cand_p@[j]@, pref) < min_sqd(
                        cand_p@[furthest_index as int]@,
                        pref,
                    ),
            decreases cand_p@.len() - i,
        {
            let di = self.min_dist_to_prefix(tcp, size, &cand_p[i]);
            if i == 0 {
                furthest_dist = di;
                furthest_index = 0;
            } else if furthest_dist < di {
                furthest_dist = di;
                furthest_index = i;
            }
            i += 1;
        }
        furthest_index
    }

    /// Brute-force minimum squared distance from one candidate to the
    /// first `size` generated points.
    fn min_dist_to_prefix(&self, tcp: &Vec<Point>, size: usize, cand: &Point) -> (d: u128)
        requires
            1 <= size <= tcp@.len(),
            forall|j: int|
                0 <= j < size ==> (#[trigger] tcp@[j])@.len() == cand@.len(),
        ensures
            d == min_sqd(cand@, prefix_views(tcp@, size as int)),
    {
        let ghost pref = prefix_views(tcp@, size as int);
        proof {
            assert(pref.take(1) =~= Seq::<Seq<i32>>::empty().push(tcp@[0]@));
            assert(Seq::<Seq<i32>>::empty().push(tcp@[0]@).drop_last()
                =~= Seq::<Seq<i32>>::empty());
            broadcast use vstd::std_specs::vec::group_vec_axioms;

            assert(cand@.len() == cand.coordinates.len());
            crate::point::lemma_sq_dist_bound(cand@, tcp@[0]@);
            lemma_min_sqd_push(cand@, Seq::<Seq<i32>>::empty(), tcp@[0]@);
        }
        let mut d = Point::sq_distance(cand, &tcp[0]);
        let mut j: usize = 1;
        while j < size
            invariant
                1 <= j <= size,
                size <= tcp@.len(),
                pref == prefix_views(tcp@, size as int),
                forall|k: int|
                    0 <= k < size ==> (#[trigger] tcp@[k])@.len() == cand@.len(),
                d as int == min_sqd(cand@, pref.take(j as int)),
            decreases size - j,
        {
            let temp = Point::sq_distance(cand, &tcp[j]);
            proof {
                assert(pref.take(j as int + 1) =~= pref.take(j as int).push(tcp@[j as int]@));
                lemma_min_sqd_push(cand@, pref.take(j as int), tcp@[j as int]@);
            }
            if temp < d {
                d = temp;
            }
            j += 1;
        }
        proof {
            assert(pref.take(size as int) =~= pref);
        }
        d
    }

    /// Effectiveness run: one random point, then farthest candidates by
    /// brute force, until the fault zone reports a hit or `max_tries`
    /// points have been generated; returns the generated count.
    pub fn test_fscs_art_effectiveness<F: FaultZone>(
        &mut self,
        bound: &Vec<Vec<i32>>,
        fzb: &F,
        max_tries: i32,
    ) -> (r: i32)
        requires
            domain_wf(bound.deep_view()),
            bound@.len() >= 1,
            old(self).cand_num >= 1,
            max_tries >= 1,
        ensures
            1 <= r <= max_tries,
            final(self).input_domain.deep_view() =~= bound.deep_view(),
            final(self).cand_num == old(self).cand_num,
    {
        self.input_domain = copy_bounds(bound);
        let mut tcp: Vec<Point> = Vec::new();
        let mut generated_num: i32 = 1;
        tcp.push(Point::generate_rand_p(bound));
        if fzb.find_target(&tcp[0]) {
            return generated_num;
        }
        while generated_num < max_tries
            invariant
                domain_wf(bound.deep_view()),
                bound@.len() >= 1,
                self.cand_num >= 1,
                self.input_domain.deep_view() =~= bound.deep_view(),
                self.cand_num == old(self).cand_num,
                1 <= generated_num <= max_tries,
                tcp@.len() == generated_num,
                forall|j: int| 0 <= j < tcp@.len() ==> (#[trigger] tcp@[j])@.len() == bound@.len(),
            decreases max_tries - generated_num,
        {
            let cand_p = self.sample_batch(bound);
            let selected = self.find_furthest_candidate(&tcp, tcp.len(), &cand_p);
            let winner = cand_p[selected].duplicate();
            let hit = fzb.find_target(&winner);
            tcp.push(winner);
            generated_num += 1;
            if hit {
                return generated_num;
            }
        }
        generated_num
    }

    /// Throughput run: generate exactly `num` points with no fault check.
    pub fn test_fscs_art_efficiency(&mut self, num: i32, bound: &Vec<Vec<i32>>)
        requires
            domain_wf(bound.deep_view()),
            bound@.len() >= 1,
            old(self).cand_num >= 1,
            num >= 1,
        ensures
            final(self).input_domain.deep_view() =~= bound.deep_view(),
            final(self).cand_num == old(self).cand_num,
    {
        self.input_domain = copy_bounds(bound);
        let mut tcp: Vec<Point> = Vec::new();
        tcp.push(Point::generate_rand_p(bound));
        let mut j: i32 = 1;
        while j < num
            invariant
                domain_wf(bound.deep_view()),
                bound@.len() >= 1,
                self.cand_num >= 1,
                self.input_domain.deep_view() =~= bound.deep_view(),
                self.cand_num == old(self).cand_num,
                1 <= j <= num,
                tcp@.len() == j,
                forall|k: int| 0 <= k < tcp@.len() ==> (#[trigger] tcp@[k])@.len() == bound@.len(),
            decreases num - j,
        {
            let cand_p = self.sample_batch(bound);
            let selected = self.find_furthest_candidate(&tcp, tcp.len(), &cand_p);
            tcp.push(cand_p[selected].duplicate());
            j += 1;
        }
    }

    /// One batch of `cand_num` points drawn uniformly from the domain.
    fn sample_batch(&self, bound: &Vec<Vec<i32>>) -> (v: Vec<Point>)
        requires
            domain_wf(bound.deep_view()),
            self.cand_num >= 1,
        ensures
            v@.len() == self.cand_num,
            v@.len() >= 1,
            forall|i: int|
                0 <= i < v@.len() ==> (#[trigger] v@[i]).wf() && v@[i]@.len() == bound@.len()
                    && in_domain(v@[i]@, bound.deep_view()),
    {
        let mut v: Vec<Point> = Vec::new();
        let mut c: i32 = 0;
        while c < self.cand_num
            invariant
                domain_wf(bound.deep_view()),
                0 <= c <= self.cand_num,
                v@.len() == c,
                forall|i: int|
                    0 <= i < v@.len() ==> (#[trigger] v@[i]).wf() && v@[i]@.len() == bound@.len()
                        && in_domain(v@[i]@, bound.deep_view()),
            decreases self.cand_num - c,
        {
            v.push(Point::generate_rand_p(bound));
            c += 1;
        }
        v
    }
}

} // verus!

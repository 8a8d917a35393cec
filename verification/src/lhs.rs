//! The latin-hypercube sampler (LHS): a peer strategy that divides each
//! domain axis into `n_partitions` equal integer steps and draws one point
//! per cell, either at random per batch or exhaustively over every cell of
//! the grid in a shuffled order.
use vstd::prelude::*;
use crate::FaultZone;
use crate::point::Point;
use crate::point::copy_bounds;
use crate::point::domain_wf;
use crate::point::in_domain;
use crate::point::rand_in_range;
use crate::point::rand_index;
use vstd::arithmetic::div_mod::lemma_div_non_zero;
use vstd::arithmetic::div_mod::lemma_fundamental_div_mod;
use vstd::arithmetic::div_mod::lemma_mod_bound;
use vstd::arithmetic::div_mod::lemma_div_denominator;

verus! {

/// `base` to the power `e` over the naturals.
pub open spec fn upow(base: nat, e: nat) -> nat
    decreases e,
{
    if e == 0 {
        1nat
    } else {
        base * upow(base, (e - 1) as nat)
    }
}

proof fn lemma_upow_monotone(base: nat, d: nat, e: nat)
    requires
        base >= 1,
        d <= e,
    ensures
        upow(base, d) <= upow(base, e),
        upow(base, d) >= 1,
    decreases e,
{
    if e > 0 {
        if d == e {
            lemma_upow_monotone(base, (d - 1) as nat, (e - 1) as nat);
            assert(base * upow(base, (e - 1) as nat) >= 1 * upow(base, (e - 1) as nat))
                by (nonlinear_arith)
                requires
                    base >= 1,
                    upow(base, (e - 1) as nat) >= 0,
            ;
        } else {
            lemma_upow_monotone(base, d, (e - 1) as nat);
            assert(base * upow(base, (e - 1) as nat) >= 1 * upow(base, (e - 1) as nat))
                by (nonlinear_arith)
                requires
                    base >= 1,
                    upow(base, (e - 1) as nat) >= 0,
            ;
        }
    }
}

/// How many more cases a run still needs: zero once `have` covers
/// `target`.
spec fn shortfall(target: int, have: int) -> int {
    if have >= target {
        0int
    } else {
        target - have
    }
}

/// Two flat indices below `parts^e` with the same base-`parts` digit on
/// every position are the same index.
proof fn lemma_digits_unique(parts: int, e: nat, i1: int, i2: int)
    requires
        parts >= 1,
        0 <= i1 < upow(parts as nat, e),
        0 <= i2 < upow(parts as nat, e),
        forall|d: int|
            0 <= d < e ==> (i1 / (#[trigger] upow(parts as nat, d as nat) as int)) % parts == (i2
                / (upow(parts as nat, d as nat) as int)) % parts,
    ensures
        i1 == i2,
    decreases e,
{
    if e == 0 {
        assert(upow(parts as nat, 0nat) == 1);
    } else {
        assert(upow(parts as nat, e) == (parts as nat) * upow(parts as nat, (e - 1) as nat));
        lemma_upow_monotone(parts as nat, (e - 1) as nat, (e - 1) as nat);
        let pe1 = upow(parts as nat, (e - 1) as nat) as int;
        let q1 = i1 / parts;
        let q2 = i2 / parts;
        let r1 = i1 % parts;
        let r2 = i2 % parts;
        lemma_fundamental_div_mod(i1, parts);
        lemma_fundamental_div_mod(i2, parts);
        lemma_mod_bound(i1, parts);
        lemma_mod_bound(i2, parts);
        let d0: int = 0;
        assert(upow(parts as nat, d0 as nat) == 1);
        assert((i1 / (upow(parts as nat, d0 as nat) as int)) % parts == (i2 / (upow(
            parts as nat,
            d0 as nat,
        ) as int)) % parts);
        assert(i1 / 1int == i1);
        assert(i2 / 1int == i2);
        assert(r1 == r2);
        assert(q1 < pe1) by (nonlinear_arith)
            requires
                i1 == parts * q1 + r1,
                0 <= r1,
                i1 < parts * pe1,
                parts >= 1,
                pe1 >= 1,
        ;
        assert(q2 < pe1) by (nonlinear_arith)
            requires
                i2 == parts * q2 + r2,
                0 <= r2,
                i2 < parts * pe1,
                parts >= 1,
                pe1 >= 1,
        ;
        assert(0 <= q1 && 0 <= q2) by (nonlinear_arith)
            requires
                i1 == parts * q1 + r1,
                i2 == parts * q2 + r2,
                0 <= i1,
                0 <= i2,
                0 <= r1 < parts,
                0 <= r2 < parts,
                parts >= 1,
        ;
        assert forall|d: int| 0 <= d < e - 1 implies (q1 / (#[trigger] upow(
            parts as nat,
            d as nat,
        ) as int)) % parts == (q2 / (upow(parts as nat, d as nat) as int)) % parts by {
            lemma_upow_monotone(parts as nat, d as nat, d as nat);
            lemma_div_denominator(i1, parts, upow(parts as nat, d as nat) as int);
            lemma_div_denominator(i2, parts, upow(parts as nat, d as nat) as int);
            assert(upow(parts as nat, (d + 1) as nat) == (parts as nat) * upow(
                parts as nat,
                d as nat,
            ));
            assert((parts as nat) as int == parts);
            assert(parts * (upow(parts as nat, d as nat) as int) == upow(
                parts as nat,
                (d + 1) as nat,
            ) as int) by (nonlinear_arith)
                requires
                    upow(parts as nat, (d + 1) as nat) == (parts as nat) * upow(
                        parts as nat,
                        d as nat,
                    ),
                    (parts as nat) as int == parts,
            ;
            assert((i1 / parts) / (upow(parts as nat, d as nat) as int) == i1 / (upow(
                parts as nat,
                (d + 1) as nat,
            ) as int));
            assert((i2 / parts) / (upow(parts as nat, d as nat) as int) == i2 / (upow(
                parts as nat,
                (d + 1) as nat,
            ) as int));
        }
        lemma_digits_unique(parts, (e - 1) as nat, q1, q2);
    }
}

pub struct LhsArt {
    /// Number of partitions per domain axis; the grid has
    /// `n_partitions ^ n` cells over `n` axes.
    pub n_partitions: usize,
    /// The n (low, high) interval pairs bounding the search space.
    pub input_domain: Vec<Vec<i32>>,
    /// Whether batches cover every grid cell exhaustively (in a shuffled
    /// order) or pick cells at random per batch.
    pub exhaustive: bool,
    /// Internal pool of not-yet-used grid cell indices (exhaustive mode).
    pub randomised_point_indices: Vec<u32>,
}

impl Default for LhsArt {
    /// The same sampler `new` builds.
    fn default() -> (s: Self)
        ensures
            s.n_partitions == 10,
            s.input_domain@.len() == 0,
            !s.exhaustive,
            s.randomised_point_indices@.len() == 0,
    {
        Self::new()
    }
}

impl LhsArt {
    /// The sampler's precondition on its domain and partition count: a
    /// well-formed domain whose every axis is at least `n_partitions`
    /// wide (so each integer step is non-empty), with a partition count
    /// that fits exact 32-bit grid arithmetic; the exhaustive grid must
    /// also have at most `u32::MAX` cells.
    pub open spec fn lhs_ok(self) -> bool {
        &&& domain_wf(self.input_domain.deep_view())
        &&& 1 <= self.n_partitions <= u32::MAX
        &&& (forall|d: int|
            0 <= d < self.input_domain@.len() ==> self.n_partitions
                <= (#[trigger] self.input_domain.deep_view()[d])[1]
                - self.input_domain.deep_view()[d][0])
        &&& (self.exhaustive ==> upow(
            self.n_partitions as nat,
            self.input_domain@.len() as nat,
        ) <= u32::MAX)
    }

    /// The integer step of axis `d`: the axis width divided by the
    /// partition count, rounded down.
    pub open spec fn step_of(self, d: int) -> int {
        (self.input_domain.deep_view()[d][1] - self.input_domain.deep_view()[d][0]) / (
        self.n_partitions as int)
    }

    /// The index of the step interval the coordinate `c` occupies on axis
    /// `d`: how many whole steps `c` lies above the axis low.
    pub open spec fn cell_of(self, d: int, c: int) -> int {
        (c - self.input_domain.deep_view()[d][0]) / self.step_of(d)
    }

    /// A pool of still-unused interval lower bounds on axis `d`: each
    /// entry is the axis low plus a whole number of steps, and no entry
    /// repeats.
    pub open spec fn pool_ok(self, d: int, pool: Seq<i64>) -> bool {
        &&& (forall|e: int|
            0 <= e < pool.len() ==> #[trigger] pool[e] as int
                == self.input_domain.deep_view()[d][0] + self.cell_of(d, pool[e] as int)
                * self.step_of(d))
        &&& (forall|e1: int, e2: int|
            0 <= e1 < e2 < pool.len() ==> #[trigger] pool[e1] != #[trigger] pool[e2])
    }

    /// Digit `d` of the flat grid-cell index `idx` in base `n_partitions`:
    /// which step interval the cell occupies on axis `d`.
    pub open spec fn digit_of(self, idx: int, d: int) -> int {
        (idx / (upow(self.n_partitions as nat, d as nat) as int)) % (self.n_partitions as int)
    }

    /// Two points differ in the step interval they occupy on at least
    /// one axis: they lie in different grid cells.
    pub open spec fn differ_in_some_cell(self, a: Point, b: Point) -> bool {
        exists|dd: int|
            0 <= dd < self.input_domain@.len() && #[trigger] self.cell_of(dd, a@[dd] as int)
                != self.cell_of(dd, b@[dd] as int)
    }

    /// The points of `pts` with positions in `[from, to)` occupy pairwise
    /// distinct grid cells.
    pub open spec fn distinct_cells(self, pts: Seq<Point>, from: int, to: int) -> bool {
        forall|j1: int, j2: int|
            #![trigger pts[j1], pts[j2]]
            from <= j1 < j2 < to ==> self.differ_in_some_cell(pts[j1], pts[j2])
    }

    /// The exhaustive-mode pool invariant: the remaining cell indices are
    /// pairwise distinct and each denotes a cell of the current grid, so
    /// cells are consumed without replacement until the pool is refilled.
    pub open spec fn pool_wf(self) -> bool {
        &&& self.randomised_point_indices@.no_duplicates()
        &&& (forall|e: int|
            0 <= e < self.randomised_point_indices@.len() ==> (
            #[trigger] self.randomised_point_indices@[e]) < upow(
                self.n_partitions as nat,
                self.input_domain@.len() as nat,
            ))
    }

    /// The coordinate `c` occupies none of the step intervals whose lower
    /// bounds remain in `pool`.
    pub open spec fn cell_unused(self, d: int, c: int, pool: Seq<i64>) -> bool {
        forall|e: int|
            0 <= e < pool.len() ==> self.cell_of(d, c) != self.cell_of(
                d,
                #[trigger] pool[e] as int,
            )
    }

    /// A sampler with the default partition count and an empty domain,
    /// in random (non-exhaustive) mode.
    pub fn new() -> (s: Self)
        ensures
            s.n_partitions == 10,
            s.input_domain@.len() == 0,
            !s.exhaustive,
            s.randomised_point_indices@.len() == 0,
    {
        LhsArt {
            n_partitions: 10,
            input_domain: Vec::new(),
            exhaustive: false,
            randomised_point_indices: Vec::new(),
        }
    }

    /// A sampler with the given partition count.
    pub fn with_partition_count(n_partitions: usize) -> (s: Self)
        ensures
            s.n_partitions == n_partitions,
            s.input_domain@.len() == 0,
            !s.exhaustive,
            s.randomised_point_indices@.len() == 0,
    {
        LhsArt {
            n_partitions,
            input_domain: Vec::new(),
            exhaustive: false,
            randomised_point_indices: Vec::new(),
        }
    }

    /// The per-axis integer step sizes of the partition grid.
    pub fn compute_steps(&self) -> (steps: Vec<i64>)
        requires
            domain_wf(self.input_domain.deep_view()),
            1 <= self.n_partitions <= u32::MAX,
        ensures
            steps@.len() == self.input_domain@.len(),
            forall|d: int| 0 <= d < steps@.len() ==> #[trigger] steps@[d] == self.step_of(d),
    {
        let n = self.input_domain.len();
        let mut steps: Vec<i64> = Vec::new();
        let mut d: usize = 0;
        while d < n
            invariant
                d <= n,
                n == self.input_domain@.len(),
                domain_wf(self.input_domain.deep_view()),
                1 <= self.n_partitions <= u32::MAX,
                steps@.len() == d,
                forall|k: int| 0 <= k < d ==> #[trigger] steps@[k] == self.step_of(k),
            decreases n - d,
        {
            proof {
                crate::point::lemma_deep_view_index(self.input_domain, d as int);
            }
            let lo = self.input_domain[d][0];
            let hi = self.input_domain[d][1];
            let diff: i64 = hi as i64 - lo as i64;
            steps.push(diff / (self.n_partitions as i64));
            d += 1;
        }
        steps
    }

    /// The low corner of grid cell `i` (cells numbered with axis 0
    /// fastest): on axis `d`, the domain low plus
    /// `(i / n_partitions^d) % n_partitions` steps.
    pub fn get_lower_bounds_by_index(&self, i: usize, steps: &Vec<i64>) -> (r: Vec<i64>)
        requires
            self.lhs_ok(),
            steps@.len() == self.input_domain@.len(),
            forall|d: int| 0 <= d < steps@.len() ==> #[trigger] steps@[d] == self.step_of(d),
        ensures
            r@.len() == self.input_domain@.len(),
            forall|d: int|
                0 <= d < r@.len() ==> #[trigger] r@[d] == self.input_domain.deep_view()[d][0] + ((
                i as int / (upow(self.n_partitions as nat, d as nat) as int)) % (
                self.n_partitions as int)) * self.step_of(d),
            forall|d: int|
                0 <= d < r@.len() ==> self.input_domain.deep_view()[d][0] <= #[trigger] r@[d]
                    && r@[d] + self.step_of(d) <= self.input_domain.deep_view()[d][1],
    {
        let n = self.input_domain.len();
        let parts = self.n_partitions;
        let mut r: Vec<i64> = Vec::new();
        let mut idx: usize = i;
        let mut d: usize = 0;
        proof {
            assert(upow(parts as nat, 0nat) == 1);
            assert(i as int / 1int == i as int);
        }
        while d < n
            invariant
                d <= n,
                n == self.input_domain@.len(),
                self.lhs_ok(),
                parts == self.n_partitions,
                steps@.len() == n,
                forall|k: int| 0 <= k < n ==> #[trigger] steps@[k] == self.step_of(k),
                idx as int == i as int / (upow(parts as nat, d as nat) as int),
                r@.len() == d,
                forall|k: int|
                    0 <= k < d ==> #[trigger] r@[k] == self.input_domain.deep_view()[k][0] + ((
                    i as int / (upow(parts as nat, k as nat) as int)) % (parts as int))
                        * self.step_of(k),
                forall|k: int|
                    0 <= k < d ==> self.input_domain.deep_view()[k][0] <= #[trigger] r@[k]
                        && r@[k] + self.step_of(k) <= self.input_domain.deep_view()[k][1],
            decreases n - d,
        {
            proof {
                crate::point::lemma_deep_view_index(self.input_domain, d as int);
            }
            let lo = self.input_domain[d][0];
            let hi = self.input_domain[d][1];
            let ghost diff = hi as int - lo as int;
            let cell: usize = idx % parts;
            let step = steps[d];
            proof {
                lemma_mod_bound(idx as int, parts as int);
                lemma_fundamental_div_mod(diff, parts as int);
                lemma_mod_bound(diff, parts as int);
                assert((cell as int) * (step as int) <= ((parts - 1) as int) * (step as int))
                    by (nonlinear_arith)
                    requires
                        0 <= cell as int <= (parts - 1) as int,
                        step as int >= 0,
                ;
                assert(((parts - 1) as int) * (step as int) + (step as int) == (parts as int) * (
                step as int)) by (nonlinear_arith);
                assert(0 <= (cell as int) * (step as int)) by (nonlinear_arith)
                    requires
                        cell as int >= 0,
                        step as int >= 0,
                ;
            }
            let lower: i64 = lo as i64 + (cell as i64) * step;
            r.push(lower);
            proof {
                lemma_upow_monotone(parts as nat, d as nat, d as nat);
                lemma_div_denominator(i as int, upow(parts as nat, d as nat) as int, parts as int);
                assert((upow(parts as nat, d as nat) as int) * (parts as int) == upow(
                    parts as nat,
                    (d + 1) as nat,
                ) as int) by (nonlinear_arith)
                    requires
                        upow(parts as nat, (d + 1) as nat) == (parts as nat) * upow(
                            parts as nat,
                            d as nat,
                        ),
                ;
            }
            idx = idx / parts;
            d += 1;
        }
        r
    }

    /// Rebuilds and shuffles the pool of not-yet-used grid cell indices:
    /// each cell index `0..n_partitions^n` exactly once, in an order
    /// drawn at random.
    fn initialise_randomised_point_indices(&mut self)
        requires
            old(self).lhs_ok(),
            upow(old(self).n_partitions as nat, old(self).input_domain@.len() as nat)
                <= u32::MAX,
        ensures
            final(self).n_partitions == old(self).n_partitions,
            final(self).input_domain == old(self).input_domain,
            final(self).exhaustive == old(self).exhaustive,
            final(self).randomised_point_indices@.len() == upow(
                old(self).n_partitions as nat,
                old(self).input_domain@.len() as nat,
            ),
            final(self).randomised_point_indices@.len() >= 1,
            final(self).randomised_point_indices@.to_multiset() == Seq::new(
                upow(old(self).n_partitions as nat, old(self).input_domain@.len() as nat),
                |i: int| i as u32,
            ).to_multiset(),
            final(self).pool_wf(),
    {
        let n = self.input_domain.len();
        let parts = self.n_partitions;
        let mut n_points: u64 = 1;
        let mut d: usize = 0;
        while d < n
            invariant
                d <= n,
                n == self.input_domain@.len(),
                1 <= parts <= u32::MAX,
                upow(parts as nat, n as nat) <= u32::MAX,
                n_points == upow(parts as nat, d as nat),
            decreases n - d,
        {
            proof {
                lemma_upow_monotone(parts as nat, (d + 1) as nat, n as nat);
                assert((n_points as int) * (parts as int) == upow(parts as nat, (d + 1) as nat))
                    by (nonlinear_arith)
                    requires
                        upow(parts as nat, (d + 1) as nat) == (parts as nat) * upow(
                            parts as nat,
                            d as nat,
                        ),
                        n_points == upow(parts as nat, d as nat),
                ;
            }
            n_points = n_points * (parts as u64);
            d += 1;
        }
        proof {
            lemma_upow_monotone(parts as nat, 0, n as nat);
        }
        let mut indices: Vec<u32> = Vec::new();
        let mut x: u64 = 0;
        while x < n_points
            invariant
                x <= n_points,
                n_points <= u32::MAX,
                indices@.len() == x,
                forall|k: int| 0 <= k < x ==> indices@[k] == k as u32,
            decreases n_points - x,
        {
            indices.push(x as u32);
            x += 1;
        }
        proof {
            assert(indices@ =~= Seq::new(n_points as nat, |i: int| i as u32));
        }
        shuffle_indices(&mut indices);
        proof {
            broadcast use vstd::seq_lib::group_to_multiset_ensures;
            broadcast use vstd::multiset::group_multiset_axioms;

            let ident = Seq::new(n_points as nat, |i: int| i as u32);
            assert forall|i: int, j: int| 0 <= i < j < ident.len() implies ident[i] != ident[j] by {
                assert((i as u32) as int == i);
                assert((j as u32) as int == j);
            }
            assert(ident.no_duplicates());
            ident.lemma_multiset_has_no_duplicates();
            indices@.lemma_multiset_has_no_duplicates_conv();
            assert forall|e: int| 0 <= e < indices@.len() implies (#[trigger] indices@[e])
                < n_points by {
                let v = indices@[e];
                assert(indices@.contains(v));
                assert(indices@.to_multiset().count(v) > 0);
                assert(ident.to_multiset().count(v) > 0);
                assert(ident.contains(v));
                let i0 = choose|i0: int| 0 <= i0 < ident.len() && ident[i0] == v;
                assert(v == i0 as u32);
                assert((i0 as u32) as int == i0);
            }
        }
        self.randomised_point_indices = indices;
    }

    /// One latin-hypercube batch: for each of `n_partitions` points, pick
    /// for every axis one still-unused step interval at random (without
    /// replacement within the batch) and draw the coordinate uniformly
    /// from it. Appends exactly `n_partitions` in-domain points which, on
    /// every axis, occupy pairwise distinct step intervals — the Latin
    /// hypercube property.
    fn populate_test_cases_random(&self, existing_test_cases: &mut Vec<Point>)
        requires
            self.lhs_ok(),
        ensures
            final(existing_test_cases)@.len() == old(existing_test_cases)@.len()
                + self.n_partitions,
            forall|k: int|
                0 <= k < old(existing_test_cases)@.len() ==> #[trigger] final(existing_test_cases)@[k] == old(existing_test_cases)@[k],
            forall|k: int|
                old(existing_test_cases)@.len() <= k < final(existing_test_cases)@.len()
                    ==> (#[trigger] final(existing_test_cases)@[k]).wf() && in_domain(
                    final(existing_test_cases)@[k]@,
                    self.input_domain.deep_view(),
                ),
            forall|j1: int, j2: int, d: int|
                old(existing_test_cases)@.len() <= j1 < j2 < final(existing_test_cases)@.len()
                    && 0 <= d < self.input_domain@.len() ==> self.cell_of(
                    d,
                    #[trigger] final(existing_test_cases)@[j1]@[d] as int,
                ) != self.cell_of(d, #[trigger] final(existing_test_cases)@[j2]@[d] as int),
    {
        let n = self.input_domain.len();
        let parts = self.n_partitions;
        let steps = self.compute_steps();
        let mut lower_bounds: Vec<Vec<i64>> = Vec::new();
        let mut d: usize = 0;
        while d < n
            invariant
                d <= n,
                n == self.input_domain@.len(),
                self.lhs_ok(),
                parts == self.n_partitions,
                steps@.len() == n,
                forall|k: int| 0 <= k < n ==> #[trigger] steps@[k] == self.step_of(k),
                lower_bounds@.len() == d,
                forall|k: int| 0 <= k < d ==> (#[trigger] lower_bounds@[k])@.len() == parts,
                forall|k: int, e: int|
                    0 <= k < d && 0 <= e < lower_bounds@[k]@.len()
                        ==> self.input_domain.deep_view()[k][0] <= (#[trigger] lower_bounds@[k]@[e])
                        && lower_bounds@[k]@[e] + self.step_of(k)
                        <= self.input_domain.deep_view()[k][1],
                forall|k: int| 0 <= k < d ==> self.pool_ok(k, (#[trigger] lower_bounds@[k])@),
            decreases n - d,
        {
            proof {
                crate::point::lemma_deep_view_index(self.input_domain, d as int);
                lemma_div_non_zero(
                    self.input_domain.deep_view()[d as int][1]
                        - self.input_domain.deep_view()[d as int][0],
                    parts as int,
                );
                lemma_fundamental_div_mod(
                    self.input_domain.deep_view()[d as int][1]
                        - self.input_domain.deep_view()[d as int][0],
                    parts as int,
                );
                lemma_mod_bound(
                    self.input_domain.deep_view()[d as int][1]
                        - self.input_domain.deep_view()[d as int][0],
                    parts as int,
                );
            }
            let lo = self.input_domain[d][0];
            let step = steps[d];
            let mut pool: Vec<i64> = Vec::new();
            let mut k: usize = 0;
            while k < parts
                invariant
                    k <= parts,
                    1 <= parts <= u32::MAX,
                    step == self.step_of(d as int),
                    step >= 1,
                    (parts as int) * (step as int) <= self.input_domain.deep_view()[d as int][1]
                        - self.input_domain.deep_view()[d as int][0],
                    lo == self.input_domain.deep_view()[d as int][0],
                    pool@.len() == k,
                    forall|e: int|
                        0 <= e < k ==> lo as int <= (#[trigger] pool@[e]) && pool@[e] + step
                            <= self.input_domain.deep_view()[d as int][1],
                    forall|e: int| 0 <= e < k ==> #[trigger] pool@[e] as int == lo as int + e * (
                    step as int),
                decreases parts - k,
            {
                proof {
                    assert((k as int) * (step as int) + (step as int) <= (parts as int) * (
                    step as int)) by (nonlinear_arith)
                        requires
                            0 <= k as int <= (parts as int) - 1,
                            step as int >= 1,
                    ;
                    assert(0 <= (k as int) * (step as int)) by (nonlinear_arith)
                        requires
                            k as int >= 0,
                            step as int >= 1,
                    ;
                }
                pool.push(lo as i64 + (k as i64) * step);
                k += 1;
            }
            proof {
                assert forall|e: int| 0 <= e < pool@.len() implies #[trigger] pool@[e] as int
                    == self.input_domain.deep_view()[d as int][0] + self.cell_of(
                    d as int,
                    pool@[e] as int,
                ) * self.step_of(d as int) by {
                    vstd::arithmetic::div_mod::lemma_div_by_multiple(e, step as int);
                    assert(self.cell_of(d as int, pool@[e] as int) == (e * (step as int)) / (
                    step as int));
                }
                assert forall|e1: int, e2: int| 0 <= e1 < e2 < pool@.len() implies #[trigger] pool@[e1]
                    != #[trigger] pool@[e2] by {
                    assert(e1 * (step as int) < e2 * (step as int)) by (nonlinear_arith)
                        requires
                            e1 < e2,
                            step as int >= 1,
                    ;
                }
                assert(self.pool_ok(d as int, pool@));
            }
            lower_bounds.push(pool);
            d += 1;
        }
        let ghost base = existing_test_cases@.len();
        let mut t: usize = 0;
        while t < parts
            invariant
                t <= parts,
                n == self.input_domain@.len(),
                self.lhs_ok(),
                parts == self.n_partitions,
                steps@.len() == n,
                forall|k: int| 0 <= k < n ==> #[trigger] steps@[k] == self.step_of(k),
                lower_bounds@.len() == n,
                forall|k: int| 0 <= k < n ==> (#[trigger] lower_bounds@[k])@.len() == parts - t,
                forall|k: int, e: int|
                    0 <= k < n && 0 <= e < lower_bounds@[k]@.len()
                        ==> self.input_domain.deep_view()[k][0] <= (#[trigger] lower_bounds@[k]@[e])
                        && lower_bounds@[k]@[e] + self.step_of(k)
                        <= self.input_domain.deep_view()[k][1],
                forall|k: int| 0 <= k < n ==> self.pool_ok(k, (#[trigger] lower_bounds@[k])@),
                existing_test_cases@.len() == base + t,
                forall|k: int|
                    0 <= k < base ==> #[trigger] existing_test_cases@[k] == old(
                        existing_test_cases,
                    )@[k],
                forall|k: int|
                    base <= k < existing_test_cases@.len() ==> (#[trigger] existing_test_cases@[k]).wf()
                        && in_domain(existing_test_cases@[k]@, self.input_domain.deep_view()),
                forall|j: int, k: int|
                    base <= j < existing_test_cases@.len() && 0 <= k < n ==> self.cell_unused(
                        k,
                        #[trigger] existing_test_cases@[j]@[k] as int,
                        lower_bounds@[k]@,
                    ),
                forall|j1: int, j2: int, k: int|
                    base <= j1 < j2 < existing_test_cases@.len() && 0 <= k < n ==> self.cell_of(
                        k,
                        #[trigger] existing_test_cases@[j1]@[k] as int,
                    ) != self.cell_of(k, #[trigger] existing_test_cases@[j2]@[k] as int),
            decreases parts - t,
        {
            let mut coordinates: Vec<i32> = Vec::new();
            let mut d2: usize = 0;
            while d2 < n
                invariant
                    d2 <= n,
                    t < parts,
                    n == self.input_domain@.len(),
                    self.lhs_ok(),
                    parts == self.n_partitions,
                    steps@.len() == n,
                    forall|k: int| 0 <= k < n ==> #[trigger] steps@[k] == self.step_of(k),
                    lower_bounds@.len() == n,
                    forall|k: int|
                        0 <= k < d2 ==> (#[trigger] lower_bounds@[k])@.len() == parts - t - 1,
                    forall|k: int|
                        d2 <= k < n ==> (#[trigger] lower_bounds@[k])@.len() == parts - t,
                    forall|k: int, e: int|
                        0 <= k < n && 0 <= e < lower_bounds@[k]@.len()
                            ==> self.input_domain.deep_view()[k][0] <= (
                        #[trigger] lower_bounds@[k]@[e]) && lower_bounds@[k]@[e] + self.step_of(k)
                            <= self.input_domain.deep_view()[k][1],
                    forall|k: int| 0 <= k < n ==> self.pool_ok(k, (#[trigger] lower_bounds@[k])@),
                    existing_test_cases@.len() == base + t,
                    forall|j: int, k: int|
                        base <= j < existing_test_cases@.len() && 0 <= k < n ==> self.cell_unused(
                            k,
                            #[trigger] existing_test_cases@[j]@[k] as int,
                            lower_bounds@[k]@,
                        ),
                    coordinates@.len() == d2,
                    forall|k: int|
                        0 <= k < d2 ==> self.input_domain.deep_view()[k][0] <= (
                        #[trigger] coordinates@[k]) && coordinates@[k]
                            < self.input_domain.deep_view()[k][1],
                    forall|k: int|
                        0 <= k < d2 ==> self.cell_unused(
                            k,
                            (#[trigger] coordinates@[k]) as int,
                            lower_bounds@[k]@,
                        ),
                    forall|j: int, k: int|
                        base <= j < existing_test_cases@.len() && 0 <= k < d2 ==> self.cell_of(
                            k,
                            (#[trigger] coordinates@[k]) as int,
                        ) != self.cell_of(k, #[trigger] existing_test_cases@[j]@[k] as int),
                decreases n - d2,
            {
                proof {
                    crate::point::lemma_deep_view_index(self.input_domain, d2 as int);
                    lemma_div_non_zero(
                        self.input_domain.deep_view()[d2 as int][1]
                            - self.input_domain.deep_view()[d2 as int][0],
                        parts as int,
                    );
                }
                let ghost lo_d = self.input_domain.deep_view()[d2 as int][0];
                let ghost step_d = self.step_of(d2 as int);
                let hi = self.input_domain[d2][1];
                let step = steps[d2];
                let pool_len = lower_bounds[d2].len();
                let pick_index = rand_index(pool_len);
                let ghost lb_before = lower_bounds@;
                let ghost pool_before = lower_bounds@[d2 as int]@;
                let mut pool = lower_bounds.remove(d2);
                let lower_bound = pool.remove(pick_index);
                lower_bounds.insert(d2, pool);
                let ghost q = self.cell_of(d2 as int, lower_bound as int);
                proof {
                    assert forall|k: int| 0 <= k < n && k != d2 implies #[trigger] lb_before[k]
                        == lower_bounds@[k] by {}
                    assert(lower_bounds@[d2 as int]@ =~= pool_before.remove(pick_index as int));
                    assert forall|e: int| 0 <= e < lower_bounds@[d2 as int]@.len() implies exists|e0: int|
                        0 <= e0 < pool_before.len() && e0 != pick_index && #[trigger] lower_bounds@[d2 as int]@[e] == pool_before[e0] by {
                        if e < pick_index {
                            assert(lower_bounds@[d2 as int]@[e] == pool_before[e]);
                        } else {
                            assert(lower_bounds@[d2 as int]@[e] == pool_before[e + 1]);
                        }
                    }
                }
                let mut upper_bound: i64 = lower_bound + step;
                if upper_bound > hi as i64 {
                    upper_bound = hi as i64;
                }
                proof {
                    assert(lower_bound == pool_before[pick_index as int]);
                    assert(upper_bound == lower_bound + step);
                }
                let c = rand_in_range(lower_bound as i32, upper_bound as i32);
                coordinates.push(c);
                proof {
                    // The drawn coordinate occupies exactly the picked cell.
                    assert(lower_bound as int == lo_d + q * step_d);
                    vstd::arithmetic::div_mod::lemma_fundamental_div_mod_converse_div(
                        c as int - lo_d,
                        step_d,
                        q,
                        c as int - lower_bound as int,
                    );
                    assert(self.cell_of(d2 as int, c as int) == q);
                    // The cell is no longer in the pool: remaining entries
                    // are other lower bounds, and distinct lower bounds
                    // have distinct cells.
                    assert forall|e: int| 0 <= e < lower_bounds@[d2 as int]@.len() implies self.cell_of(
                        d2 as int,
                        c as int,
                    ) != self.cell_of(d2 as int, #[trigger] lower_bounds@[d2 as int]@[e] as int) by {
                        let e0 = choose|e0: int|
                            0 <= e0 < pool_before.len() && e0 != pick_index && lower_bounds@[d2 as int]@[e] == pool_before[e0];
                        assert(pool_before[e0] != pool_before[pick_index as int]);
                        assert(pool_before[e0] as int == lo_d + self.cell_of(
                            d2 as int,
                            pool_before[e0] as int,
                        ) * step_d);
                        assert(self.cell_of(d2 as int, pool_before[e0] as int) != q)
                            by (nonlinear_arith)
                            requires
                                pool_before[e0] as int == lo_d + self.cell_of(
                                    d2 as int,
                                    pool_before[e0] as int,
                                ) * step_d,
                                lower_bound as int == lo_d + q * step_d,
                                pool_before[e0] != lower_bound,
                        ;
                    }
                    // The cell differs from every already-appended point's
                    // cell on this axis, which was unused in the pool the
                    // lower bound was just drawn from.
                    assert forall|j: int|
                        base <= j < existing_test_cases@.len() implies self.cell_of(
                        d2 as int,
                        c as int,
                    ) != self.cell_of(
                        d2 as int,
                        #[trigger] existing_test_cases@[j]@[d2 as int] as int,
                    ) by {
                        assert(self.cell_unused(
                            d2 as int,
                            existing_test_cases@[j]@[d2 as int] as int,
                            pool_before,
                        ));
                        assert(self.cell_of(
                            d2 as int,
                            existing_test_cases@[j]@[d2 as int] as int,
                        ) != self.cell_of(d2 as int, pool_before[pick_index as int] as int));
                    }
                    // Shrinking a pool preserves freshness and pool shape.
                    assert forall|j: int, k: int|
                        base <= j < existing_test_cases@.len() && 0 <= k < n implies self.cell_unused(
                        k,
                        #[trigger] existing_test_cases@[j]@[k] as int,
                        lower_bounds@[k]@,
                    ) by {
                        if k == d2 {
                            assert(self.cell_unused(
                                k,
                                existing_test_cases@[j]@[k] as int,
                                pool_before,
                            ));
                            assert forall|e: int|
                                0 <= e < lower_bounds@[k]@.len() implies self.cell_of(
                                k,
                                existing_test_cases@[j]@[k] as int,
                            ) != self.cell_of(k, #[trigger] lower_bounds@[k]@[e] as int) by {
                                if e < pick_index {
                                    assert(lower_bounds@[k]@[e] == pool_before[e]);
                                } else {
                                    assert(lower_bounds@[k]@[e] == pool_before[e + 1]);
                                }
                            }
                        } else {
                            assert(lb_before[k] == lower_bounds@[k]);
                            assert(self.cell_unused(
                                k,
                                existing_test_cases@[j]@[k] as int,
                                lb_before[k]@,
                            ));
                        }
                    }
                    assert forall|k: int| 0 <= k < d2 implies self.cell_unused(
                        k,
                        (#[trigger] coordinates@[k]) as int,
                        lower_bounds@[k]@,
                    ) by {
                        assert(lb_before[k] == lower_bounds@[k]);
                        assert(self.cell_unused(k, coordinates@[k] as int, lb_before[k]@));
                    }
                    assert(self.pool_ok(d2 as int, lower_bounds@[d2 as int]@)) by {
                        assert forall|e: int|
                            0 <= e < lower_bounds@[d2 as int]@.len() implies #[trigger] lower_bounds@[d2 as int]@[e] as int == lo_d + self.cell_of(
                            d2 as int,
                            lower_bounds@[d2 as int]@[e] as int,
                        ) * step_d by {
                            if e < pick_index {
                                assert(lower_bounds@[d2 as int]@[e] == pool_before[e]);
                            } else {
                                assert(lower_bounds@[d2 as int]@[e] == pool_before[e + 1]);
                            }
                        }
                        assert forall|e1: int, e2: int|
                            0 <= e1 < e2 < lower_bounds@[d2 as int]@.len() implies #[trigger] lower_bounds@[d2 as int]@[e1] != #[trigger] lower_bounds@[d2 as int]@[e2] by {
                            if e2 < pick_index {
                                assert(lower_bounds@[d2 as int]@[e1] == pool_before[e1]);
                                assert(lower_bounds@[d2 as int]@[e2] == pool_before[e2]);
                            } else if e1 < pick_index {
                                assert(lower_bounds@[d2 as int]@[e1] == pool_before[e1]);
                                assert(lower_bounds@[d2 as int]@[e2] == pool_before[e2 + 1]);
                            } else {
                                assert(lower_bounds@[d2 as int]@[e1] == pool_before[e1 + 1]);
                                assert(lower_bounds@[d2 as int]@[e2] == pool_before[e2 + 1]);
                            }
                        }
                    }
                }
                d2 += 1;
            }
            let p = Point { coordinates, n };
            existing_test_cases.push(p);
            t += 1;
        }
    }

    /// One exhaustive batch: 1000 points, each drawn from the next grid
    /// cell of the shuffled cell order, refilling and reshuffling the
    /// order whenever it runs out. When the batch starts with an empty
    /// order and the grid has at least 1000 cells, the whole batch comes
    /// from one shuffled pool, so its points occupy pairwise distinct
    /// grid cells.
    #[verifier::rlimit(100)]
    fn populate_test_cases_exhaustive_optimised(&mut self, existing_test_cases: &mut Vec<Point>)
        requires
            old(self).lhs_ok(),
            old(self).pool_wf(),
            upow(old(self).n_partitions as nat, old(self).input_domain@.len() as nat)
                <= u32::MAX,
        ensures
            final(self).lhs_ok(),
            final(self).pool_wf(),
            final(self).n_partitions == old(self).n_partitions,
            final(self).input_domain == old(self).input_domain,
            final(self).exhaustive == old(self).exhaustive,
            final(existing_test_cases)@.len() == old(existing_test_cases)@.len() + 1000,
            forall|k: int|
                0 <= k < old(existing_test_cases)@.len() ==> #[trigger] final(existing_test_cases)@[k] == old(existing_test_cases)@[k],
            forall|k: int|
                old(existing_test_cases)@.len() <= k < final(existing_test_cases)@.len()
                    ==> (#[trigger] final(existing_test_cases)@[k]).wf() && in_domain(
                    final(existing_test_cases)@[k]@,
                    old(self).input_domain.deep_view(),
                ),
            (old(self).randomised_point_indices@.len() == 0 && upow(
                old(self).n_partitions as nat,
                old(self).input_domain@.len() as nat,
            ) >= 1000) ==> old(self).distinct_cells(
                final(existing_test_cases)@,
                old(existing_test_cases)@.len() as int,
                final(existing_test_cases)@.len() as int,
            ),
    {
        let n = self.input_domain.len();
        let parts = self.n_partitions;
        let n_to_generate: usize = 1000;
        let steps = self.compute_steps();
        let ghost base = existing_test_cases@.len();
        let ghost grid = upow(parts as nat, n as nat) as int;
        let ghost fresh = old(self).randomised_point_indices@.len() == 0 && grid >= 1000;
        let ghost mut idxs: Seq<int> = Seq::empty();
        let mut t: usize = 0;
        while t < n_to_generate
            invariant
                t <= n_to_generate,
                n_to_generate == 1000,
                n == self.input_domain@.len(),
                self.lhs_ok(),
                self.pool_wf(),
                upow(self.n_partitions as nat, self.input_domain@.len() as nat) <= u32::MAX,
                parts == self.n_partitions,
                self.n_partitions == old(self).n_partitions,
                self.input_domain == old(self).input_domain,
                self.exhaustive == old(self).exhaustive,
                steps@.len() == n,
                forall|k: int| 0 <= k < n ==> #[trigger] steps@[k] == self.step_of(k),
                existing_test_cases@.len() == base + t,
                forall|k: int|
                    0 <= k < base ==> #[trigger] existing_test_cases@[k] == old(
                        existing_test_cases,
                    )@[k],
                forall|k: int|
                    base <= k < existing_test_cases@.len() ==> (#[trigger] existing_test_cases@[k]).wf()
                        && in_domain(existing_test_cases@[k]@, self.input_domain.deep_view()),
                grid == upow(parts as nat, n as nat),
                fresh == (old(self).randomised_point_indices@.len() == 0 && grid >= 1000),
                fresh ==> (if t == 0 {
                    self.randomised_point_indices@.len() == 0
                } else {
                    self.randomised_point_indices@.len() == grid - t
                }),
                idxs.len() == t,
                fresh ==> (forall|k: int| 0 <= k < t ==> 0 <= #[trigger] idxs[k] < grid),
                fresh ==> idxs.no_duplicates(),
                fresh ==> (forall|k: int, e: int|
                    0 <= k < t && 0 <= e < self.randomised_point_indices@.len() ==> #[trigger] idxs[k]
                        != (#[trigger] self.randomised_point_indices@[e]) as int),
                forall|k: int, dd: int|
                    0 <= k < t && 0 <= dd < n ==> self.cell_of(
                        dd,
                        #[trigger] existing_test_cases@[base + k]@[dd] as int,
                    ) == self.digit_of(idxs[k], dd),
            decreases n_to_generate - t,
        {
            if self.randomised_point_indices.is_empty() {
                self.initialise_randomised_point_indices();
            }
            let ghost pool_prev = self.randomised_point_indices@;
            let rand_cell = match self.randomised_point_indices.pop() {
                Some(v) => v as usize,
                None => 0,
            };
            proof {
                assert(self.randomised_point_indices@ =~= pool_prev.drop_last());
                assert forall|e1: int, e2: int|
                    0 <= e1 < e2 < self.randomised_point_indices@.len() implies self.randomised_point_indices@[e1]
                    != self.randomised_point_indices@[e2] by {
                    assert(pool_prev[e1] != pool_prev[e2]);
                }
                assert(self.pool_wf());
                if fresh {
                    if t == 0 {
                        assert(pool_prev.len() == grid);
                    } else {
                        assert(pool_prev.len() == grid - t);
                    }
                    assert(pool_prev.len() > 0);
                    assert(rand_cell as int == pool_prev.last() as int);
                    assert((rand_cell as int) < grid);
                }
            }
            let lower_bounds = self.get_lower_bounds_by_index(rand_cell, &steps);
            let mut coordinates: Vec<i32> = Vec::new();
            let mut d: usize = 0;
            while d < n
                invariant
                    d <= n,
                    n == self.input_domain@.len(),
                    self.lhs_ok(),
                    parts == self.n_partitions,
                    steps@.len() == n,
                    forall|k: int| 0 <= k < n ==> #[trigger] steps@[k] == self.step_of(k),
                    lower_bounds@.len() == n,
                    forall|k: int|
                        0 <= k < n ==> #[trigger] lower_bounds@[k] == self.input_domain.deep_view()[
                        k][0] + ((rand_cell as int / (upow(parts as nat, k as nat) as int)) % (
                        parts as int)) * self.step_of(k),
                    forall|k: int|
                        0 <= k < n ==> self.input_domain.deep_view()[k][0] <= (
                        #[trigger] lower_bounds@[k]) && lower_bounds@[k] + self.step_of(k)
                            <= self.input_domain.deep_view()[k][1],
                    coordinates@.len() == d,
                    forall|k: int|
                        0 <= k < d ==> self.input_domain.deep_view()[k][0] <= (
                        #[trigger] coordinates@[k]) && coordinates@[k]
                            < self.input_domain.deep_view()[k][1],
                    forall|k: int|
                        0 <= k < d ==> self.cell_of(k, (#[trigger] coordinates@[k]) as int)
                            == self.digit_of(rand_cell as int, k),
                decreases n - d,
            {
                proof {
                    crate::point::lemma_deep_view_index(self.input_domain, d as int);
                    lemma_div_non_zero(
                        self.input_domain.deep_view()[d as int][1]
                            - self.input_domain.deep_view()[d as int][0],
                        parts as int,
                    );
                }
                let hi = self.input_domain[d][1];
                let step = steps[d];
                let lower_bound = lower_bounds[d];
                let mut upper_bound: i64 = lower_bound + step;
                if upper_bound > hi as i64 {
                    upper_bound = hi as i64;
                }
                proof {
                    assert(upper_bound == lower_bound + step);
                }
                let c = rand_in_range(lower_bound as i32, upper_bound as i32);
                coordinates.push(c);
                proof {
                    let lo_d = self.input_domain.deep_view()[d as int][0];
                    let step_d = self.step_of(d as int);
                    let dig = self.digit_of(rand_cell as int, d as int);
                    lemma_mod_bound(
                        rand_cell as int / (upow(parts as nat, d as nat) as int),
                        parts as int,
                    );
                    assert(lower_bound as int == lo_d + dig * step_d);
                    vstd::arithmetic::div_mod::lemma_fundamental_div_mod_converse_div(
                        c as int - lo_d,
                        step_d,
                        dig,
                        c as int - lower_bound as int,
                    );
                    assert(self.cell_of(d as int, c as int) == dig);
                }
                d += 1;
            }
            let p = Point { coordinates, n };
            let ghost prev_cases = existing_test_cases@;
            existing_test_cases.push(p);
            proof {
                assert(existing_test_cases@ =~= prev_cases.push(p));
                let old_idxs = idxs;
                idxs = idxs.push(rand_cell as int);
                if fresh {
                    assert forall|e1: int, e2: int| 0 <= e1 < e2 < idxs.len() implies #[trigger] idxs[e1]
                        != #[trigger] idxs[e2] by {
                        if e2 == idxs.len() - 1 {
                            assert(idxs[e1] == old_idxs[e1]);
                            assert(idxs[e2] == pool_prev.last() as int);
                            assert(old_idxs[e1] != pool_prev[pool_prev.len() - 1] as int);
                        } else {
                            assert(idxs[e1] == old_idxs[e1]);
                            assert(idxs[e2] == old_idxs[e2]);
                        }
                    }
                    assert forall|k: int, e: int|
                        0 <= k < idxs.len() && 0 <= e < self.randomised_point_indices@.len()
                        implies #[trigger] idxs[k] != (
                    #[trigger] self.randomised_point_indices@[e]) as int by {
                        assert(self.randomised_point_indices@[e] == pool_prev[e]);
                        if k < idxs.len() - 1 {
                            assert(idxs[k] == old_idxs[k]);
                            assert(old_idxs[k] != pool_prev[e] as int);
                        } else {
                            assert(idxs[k] == pool_prev.last() as int);
                            assert(pool_prev[e] != pool_prev[pool_prev.len() - 1]);
                        }
                    }
                }
                assert forall|k: int, dd: int| 0 <= k < t + 1 && 0 <= dd < n implies self.cell_of(
                    dd,
                    #[trigger] existing_test_cases@[base + k]@[dd] as int,
                ) == self.digit_of(idxs[k], dd) by {
                    if k < t {
                        assert(existing_test_cases@[base + k] == prev_cases[base + k]);
                        assert(self.cell_of(dd, prev_cases[base + k]@[dd] as int) == self.digit_of(
                            old_idxs[k],
                            dd,
                        ));
                        assert(idxs[k] == old_idxs[k]);
                    } else {
                        assert(existing_test_cases@[base + k] == p);
                        assert(p@[dd] == coordinates@[dd]);
                        assert(idxs[k] == rand_cell as int);
                    }
                }
            }
            t += 1;
        }
        proof {
            if fresh {
                old(self).lemma_batch_distinct_cells(existing_test_cases@, base as int, idxs);
            }
        }
    }

    /// Points whose per-axis cells are the digits of pairwise distinct
    /// flat indices occupy pairwise distinct grid cells.
    proof fn lemma_batch_distinct_cells(self, pts: Seq<Point>, base: int, idxs: Seq<int>)
        requires
            self.lhs_ok(),
            0 <= base,
            base + idxs.len() == pts.len(),
            idxs.no_duplicates(),
            forall|k: int|
                0 <= k < idxs.len() ==> 0 <= #[trigger] idxs[k] < upow(
                    self.n_partitions as nat,
                    self.input_domain@.len() as nat,
                ),
            forall|k: int, dd: int|
                0 <= k < idxs.len() && 0 <= dd < self.input_domain@.len() ==> self.cell_of(
                    dd,
                    #[trigger] pts[base + k]@[dd] as int,
                ) == self.digit_of(idxs[k], dd),
        ensures
            self.distinct_cells(pts, base, pts.len() as int),
    {
        let n = self.input_domain@.len() as int;
        let parts = self.n_partitions as int;
        assert forall|j1: int, j2: int|
            #![trigger pts[j1], pts[j2]]
            base <= j1 < j2 < pts.len() implies self.differ_in_some_cell(pts[j1], pts[j2]) by {
            let k1 = j1 - base;
            let k2 = j2 - base;
            let i1 = idxs[k1];
            let i2 = idxs[k2];
            assert(i1 != i2);
            assert(exists|dd: int| 0 <= dd < n && self.digit_of(i1, dd) != self.digit_of(i2, dd))
                by {
                if forall|dd: int| 0 <= dd < n ==> #[trigger] self.digit_of(i1, dd)
                    == self.digit_of(i2, dd) {
                    assert forall|dd: int| 0 <= dd < n implies (i1 / (#[trigger] upow(
                        parts as nat,
                        dd as nat,
                    ) as int)) % parts == (i2 / (upow(parts as nat, dd as nat) as int))
                        % parts by {
                        assert(self.digit_of(i1, dd) == self.digit_of(i2, dd));
                    }
                    lemma_digits_unique(parts, n as nat, i1, i2);
                }
            }
            let dd = choose|dd: int| 0 <= dd < n && self.digit_of(i1, dd) != self.digit_of(i2, dd);
            assert(self.cell_of(dd, pts[base + k1]@[dd] as int) == self.digit_of(i1, dd));
            assert(self.cell_of(dd, pts[base + k2]@[dd] as int) == self.digit_of(i2, dd));
            assert(pts[j1] == pts[base + k1]);
            assert(pts[j2] == pts[base + k2]);
            assert(self.cell_of(dd, pts[j1]@[dd] as int) != self.cell_of(
                dd,
                pts[j2]@[dd] as int,
            ));
            assert(self.differ_in_some_cell(pts[j1], pts[j2]));
        }
        assert(self.distinct_cells(pts, base, pts.len() as int));
    }

    /// One batch of test cases, random or exhaustive by the strategy's
    /// mode; appends `n_partitions` points (random) or 1000 (exhaustive),
    /// all in-domain. A random batch has the Latin hypercube property: on
    /// every axis its points occupy pairwise distinct step intervals.
    pub fn populate_test_cases(&mut self, existing_test_cases: &mut Vec<Point>)
        requires
            old(self).lhs_ok(),
            old(self).pool_wf(),
        ensures
            final(self).lhs_ok(),
            final(self).pool_wf(),
            final(self).n_partitions == old(self).n_partitions,
            final(self).input_domain == old(self).input_domain,
            final(self).exhaustive == old(self).exhaustive,
            final(existing_test_cases)@.len() == old(existing_test_cases)@.len() + (if old(
                self,
            ).exhaustive {
                1000int
            } else {
                old(self).n_partitions as int
            }),
            final(existing_test_cases)@.len() > old(existing_test_cases)@.len(),
            forall|k: int|
                0 <= k < old(existing_test_cases)@.len() ==> #[trigger] final(existing_test_cases)@[k] == old(existing_test_cases)@[k],
            forall|k: int|
                old(existing_test_cases)@.len() <= k < final(existing_test_cases)@.len()
                    ==> (#[trigger] final(existing_test_cases)@[k]).wf() && in_domain(
                    final(existing_test_cases)@[k]@,
                    old(self).input_domain.deep_view(),
                ),
            (old(self).exhaustive && old(self).randomised_point_indices@.len() == 0 && upow(
                old(self).n_partitions as nat,
                old(self).input_domain@.len() as nat,
            ) >= 1000) ==> old(self).distinct_cells(
                final(existing_test_cases)@,
                old(existing_test_cases)@.len() as int,
                final(existing_test_cases)@.len() as int,
            ),
            !old(self).exhaustive ==> (forall|j1: int, j2: int, d: int|
                old(existing_test_cases)@.len() <= j1 < j2 < final(existing_test_cases)@.len()
                    && 0 <= d < old(self).input_domain@.len() ==> old(self).cell_of(
                    d,
                    #[trigger] final(existing_test_cases)@[j1]@[d] as int,
                ) != old(self).cell_of(d, #[trigger] final(existing_test_cases)@[j2]@[d] as int)),
    {
        if self.exhaustive {
            self.populate_test_cases_exhaustive_optimised(existing_test_cases);
        } else {
            self.populate_test_cases_random(existing_test_cases);
        }
    }

    /// Effectiveness run: walk the generated suite in order, growing it
    /// by one batch whenever it runs out, until the fault zone reports a
    /// hit or `max_tries` cases were checked; returns the number of cases
    /// checked — the budget count itself when none hit.
    pub fn test_lhs_art_effectiveness<F: FaultZone>(&mut self, fzb: &F, max_tries: usize) -> (r:
        usize)
        requires
            old(self).lhs_ok(),
            old(self).pool_wf(),
            max_tries >= 1,
        ensures
            1 <= r <= max_tries,
            final(self).lhs_ok(),
            final(self).pool_wf(),
    {
        let mut test_case_suite: Vec<Point> = Vec::new();
        self.populate_test_cases(&mut test_case_suite);
        let mut test_case_i: usize = 0;
        while test_case_i < max_tries
            invariant
                self.lhs_ok(),
                self.pool_wf(),
                test_case_i <= max_tries,
                test_case_i < test_case_suite@.len(),
            decreases max_tries - test_case_i,
        {
            let test_case = &test_case_suite[test_case_i];
            if fzb.find_target(test_case) {
                return test_case_i + 1;
            }
            test_case_i += 1;
            if test_case_i == test_case_suite.len() {
                self.populate_test_cases(&mut test_case_suite);
            }
        }
        max_tries
    }

    /// Throughput run: generate batches until at least
    /// `n_generated_values` cases exist.
    pub fn test_lhs_art_efficiency(&mut self, n_generated_values: usize, bound: &Vec<Vec<i32>>)
        requires
            domain_wf(bound.deep_view()),
            1 <= old(self).n_partitions <= u32::MAX,
            forall|d: int|
                0 <= d < bound@.len() ==> old(self).n_partitions <= (#[trigger] bound.deep_view()[
                d])[1] - bound.deep_view()[d][0],
            old(self).exhaustive ==> upow(old(self).n_partitions as nat, bound@.len() as nat)
                <= u32::MAX,
            old(self).randomised_point_indices@.len() == 0,
        ensures
            final(self).input_domain.deep_view() =~= bound.deep_view(),
            final(self).n_partitions == old(self).n_partitions,
    {
        self.input_domain = copy_bounds(bound);
        let mut test_case_suite: Vec<Point> = Vec::new();
        if n_generated_values <= self.n_partitions {
            self.populate_test_cases(&mut test_case_suite);
        } else {
            while test_case_suite.len() < n_generated_values
                invariant
                    self.lhs_ok(),
                    self.pool_wf(),
                    self.input_domain.deep_view() =~= bound.deep_view(),
                    self.n_partitions == old(self).n_partitions,
                decreases shortfall(n_generated_values as int, test_case_suite@.len() as int),
            {
                self.populate_test_cases(&mut test_case_suite);
            }
        }
    }
}

/// Relies on rand's `SliceRandom::shuffle`: an in-place permutation of
/// the slice, leaving the same elements with the same multiplicities.
#[verifier::external_body]
fn shuffle_indices(v: &mut Vec<u32>)
    ensures
        final(v)@.to_multiset() == old(v)@.to_multiset(),
        final(v)@.len() == old(v)@.len(),
{
    let mut rng = rand::rng();
    rand::seq::SliceRandom::shuffle(v.as_mut_slice(), &mut rng);
}

} // verus!

//! Fixed-dimension integer coordinate vectors, their squared Euclidean
//! distance, and domain-bounded random sampling.
use vstd::prelude::*;
use crate::ArtError;

verus! {

/// An immutable coordinate vector: `n` is the dimension count and always
/// equals `coordinates.len()`.
#[derive(Debug, Clone)]
pub struct Point {
    pub coordinates: Vec<i32>,
    pub n: usize,
}

impl View for Point {
    type V = Seq<i32>;

    open spec fn view(&self) -> Seq<i32> {
        self.coordinates@
    }
}

impl Point {
    /// The dimension count agrees with the coordinates held.
    pub open spec fn wf(self) -> bool {
        self.n == self@.len()
    }
}

/// The square of one coordinate difference.
pub open spec fn sq(x: int) -> int {
    x * x
}

/// Sum of squared coordinate differences over the first `k` axes.
pub open spec fn sqd_prefix(a: Seq<i32>, b: Seq<i32>, k: int) -> int
    decreases k,
{
    if k <= 0 {
        0
    } else {
        sqd_prefix(a, b, k - 1) + sq(a[k - 1] - b[k - 1])
    }
}

/// Squared Euclidean distance between two coordinate sequences of one
/// length. Squaring keeps the arithmetic exact over the integers and
/// preserves every order comparison the algorithms make.
pub open spec fn sq_dist(a: Seq<i32>, b: Seq<i32>) -> int {
    sqd_prefix(a, b, a.len() as int)
}

/// The largest value one squared coordinate difference can take.
pub open spec fn max_coord_sq() -> int {
    (u32::MAX as int) * (u32::MAX as int)
}

/// A well-formed interval list (a domain, or a node's bounding box): each
/// entry is a (low, high) pair with `low < high`.
pub open spec fn domain_wf(dom: Seq<Seq<i32>>) -> bool {
    forall|i: int|
        0 <= i < dom.len() ==> (#[trigger] dom[i]).len() == 2 && dom[i][0] < dom[i][1]
}

/// `p` lies in the half-open box `[low, high)` of each interval of `dom`.
pub open spec fn in_domain(p: Seq<i32>, dom: Seq<Seq<i32>>) -> bool {
    &&& p.len() == dom.len()
    &&& forall|i: int|
        0 <= i < dom.len() ==> (#[trigger] dom[i])[0] <= p[i] < dom[i][1]
}

/// The deep view of an interval list indexes to the views of its inner
/// vectors.
pub broadcast proof fn lemma_deep_view_index(v: Vec<Vec<i32>>, i: int)
    requires
        0 <= i < v@.len(),
    ensures
        #[trigger] v.deep_view()[i] =~= v@[i]@,
        v.deep_view().len() == v@.len(),
{
}

pub proof fn lemma_sq_nonneg(x: int)
    ensures
        sq(x) >= 0,
{
    assert(x * x >= 0) by (nonlinear_arith);
}

proof fn lemma_sq_le(x: int, m: int)
    requires
        -m <= x <= m,
        0 <= m,
    ensures
        sq(x) <= m * m,
{
    assert(x * x <= m * m) by (nonlinear_arith)
        requires
            -m <= x <= m,
            0 <= m,
    ;
}

/// Squares are monotone on the non-negatives.
pub proof fn lemma_sq_monotone(x: int, y: int)
    requires
        0 <= x <= y,
    ensures
        sq(x) <= sq(y),
{
    assert(x * x <= y * y) by (nonlinear_arith)
        requires
            0 <= x <= y,
    ;
}

/// Every partial sum of squared differences of `i32` coordinates is
/// non-negative and at most `k` times the largest square.
pub proof fn lemma_sqd_prefix_bounds(a: Seq<i32>, b: Seq<i32>, k: int)
    requires
        0 <= k,
        k <= a.len(),
        k <= b.len(),
    ensures
        0 <= sqd_prefix(a, b, k) <= k * max_coord_sq(),
    decreases k,
{
    if k > 0 {
        lemma_sqd_prefix_bounds(a, b, k - 1);
        let d = a[k - 1] - b[k - 1];
        assert(-(u32::MAX as int) <= d <= u32::MAX as int);
        lemma_sq_le(d, u32::MAX as int);
        lemma_sq_nonneg(d);
        assert((k - 1) * max_coord_sq() + max_coord_sq() == k * max_coord_sq()) by (nonlinear_arith);
    }
}

/// A squared distance between coordinate vectors that fit in memory is
/// strictly below `u128::MAX`, so `u128::MAX` can serve as the "no point
/// seen yet" sentinel.
pub proof fn lemma_sq_dist_bound(a: Seq<i32>, b: Seq<i32>)
    requires
        a.len() == b.len(),
        a.len() <= usize::MAX,
    ensures
        0 <= sq_dist(a, b) < u128::MAX,
{
    lemma_sqd_prefix_bounds(a, b, a.len() as int);
    assert(a.len() as int * max_coord_sq() < u128::MAX) by (nonlinear_arith)
        requires
            a.len() <= usize::MAX,
    ;
}

/// One term of the sum never exceeds the whole sum: the gap on a single
/// axis bounds the squared distance from below.
pub proof fn lemma_axis_gap_le_sq_dist(a: Seq<i32>, b: Seq<i32>, axis: int)
    requires
        a.len() == b.len(),
        0 <= axis < a.len(),
    ensures
        sq(a[axis] - b[axis]) <= sq_dist(a, b),
{
    lemma_axis_gap_le_prefix(a, b, axis, a.len() as int);
}

proof fn lemma_axis_gap_le_prefix(a: Seq<i32>, b: Seq<i32>, axis: int, k: int)
    requires
        a.len() == b.len(),
        0 <= axis < k,
        k <= a.len(),
    ensures
        sq(a[axis] - b[axis]) <= sqd_prefix(a, b, k),
    decreases k,
{
    lemma_sq_nonneg(a[k - 1] - b[k - 1]);
    if axis < k - 1 {
        lemma_axis_gap_le_prefix(a, b, axis, k - 1);
    } else {
        lemma_sqd_prefix_bounds(a, b, k - 1);
    }
}

/// An exact copy of a domain's interval list, with the copy's contents
/// known to equal the original's.
pub(crate) fn copy_bounds(b: &Vec<Vec<i32>>) -> (r: Vec<Vec<i32>>)
    ensures
        r@.len() == b@.len(),
        forall|i: int| 0 <= i < b@.len() ==> (#[trigger] r@[i])@ =~= b@[i]@,
        r.deep_view() =~= b.deep_view(),
{
    let n = b.len();
    let mut r: Vec<Vec<i32>> = Vec::new();
    let mut i: usize = 0;
    while i < n
        invariant
            i <= n,
            n == b@.len(),
            r@.len() == i,
            forall|j: int| 0 <= j < i ==> (#[trigger] r@[j])@ =~= b@[j]@,
        decreases n - i,
    {
        let mut inner: Vec<i32> = Vec::new();
        let m = b[i].len();
        let mut k: usize = 0;
        while k < m
            invariant
                k <= m,
                i < n,
                n == b@.len(),
                m == b@[i as int]@.len(),
                inner@.len() == k,
                forall|j: int| 0 <= j < k ==> inner@[j] == b@[i as int]@[j],
            decreases m - k,
        {
            inner.push(b[i][k]);
            k += 1;
        }
        r.push(inner);
        i += 1;
    }
    proof {
        assert(r.deep_view() =~= b.deep_view());
    }
    r
}

/// Relies on rand's `Rng::random_range` over the `i32` range `low..high`:
/// it panics on an empty range and otherwise returns a value of the range.
#[verifier::external_body]
pub(crate) fn rand_in_range(low: i32, high: i32) -> (r: i32)
    requires
        low < high,
    ensures
        low <= r < high,
{
    let mut rng = rand::rng();
    rand::Rng::random_range(&mut rng, low..high)
}

/// Relies on rand's `Rng::random_range` over the index range `0..n`: it
/// panics when `n` is 0 and otherwise returns an index below `n`.
#[verifier::external_body]
pub(crate) fn rand_index(n: usize) -> (r: usize)
    requires
        n >= 1,
    ensures
        r < n,
{
    let mut rng = rand::rng();
    rand::Rng::random_range(&mut rng, 0..n)
}

impl Point {
    /// A point of `n` zero coordinates.
    pub fn new(n: usize) -> (p: Point)
        ensures
            p.n == n,
            p@.len() == n,
            forall|i: int| 0 <= i < n ==> p@[i] == 0i32,
    {
        let mut coordinates: Vec<i32> = Vec::new();
        let mut i: usize = 0;
        while i < n
            invariant
                i <= n,
                coordinates@.len() == i,
                forall|j: int| 0 <= j < i ==> coordinates@[j] == 0i32,
            decreases n - i,
        {
            coordinates.push(0);
            i += 1;
        }
        Point { coordinates, n }
    }

    /// An exact copy, with the copy's coordinates known to equal the
    /// original's.
    pub fn duplicate(&self) -> (p: Point)
        ensures
            p@ =~= self@,
            p.n == self.n,
    {
        let mut coordinates: Vec<i32> = Vec::new();
        let mut i: usize = 0;
        let len = self.coordinates.len();
        while i < len
            invariant
                i <= len,
                len == self@.len(),
                coordinates@.len() == i,
                forall|j: int| 0 <= j < i ==> coordinates@[j] == self@[j],
            decreases len - i,
        {
            coordinates.push(self.coordinates[i]);
            i += 1;
        }
        Point { coordinates, n: self.n }
    }

    /// One point drawn uniformly per axis from `[low, high)` of each
    /// interval of `bound`.
    pub fn generate_rand_p(bound: &Vec<Vec<i32>>) -> (p: Point)
        requires
            domain_wf(bound.deep_view()),
        ensures
            p.n == bound@.len(),
            p@.len() == bound@.len(),
            in_domain(p@, bound.deep_view()),
    {
        let n = bound.len();
        let mut coordinates: Vec<i32> = Vec::new();
        let mut i: usize = 0;
        while i < n
            invariant
                i <= n,
                n == bound@.len(),
                domain_wf(bound.deep_view()),
                coordinates@.len() == i,
                forall|j: int|
                    0 <= j < i ==> (#[trigger] bound.deep_view()[j])[0] <= coordinates@[j]
                        < bound.deep_view()[j][1],
            decreases n - i,
        {
            proof {
                lemma_deep_view_index(*bound, i as int);
            }
            let lo = bound[i][0];
            let hi = bound[i][1];
            coordinates.push(rand_in_range(lo, hi));
            i += 1;
        }
        Point { coordinates, n }
    }

    /// Squared Euclidean distance of two points of one dimension.
    pub fn sq_distance(p1: &Point, p2: &Point) -> (d: u128)
        requires
            p1@.len() == p2@.len(),
        ensures
            d == sq_dist(p1@, p2@),
            d < u128::MAX,
    {
        let len = p1.coordinates.len();
        let mut sum: u128 = 0;
        let mut i: usize = 0;
        while i < len
            invariant
                i <= len,
                len == p1@.len(),
                p1@.len() == p2@.len(),
                sum == sqd_prefix(p1@, p2@, i as int),
                sum <= i as int * max_coord_sq(),
            decreases len - i,
        {
            proof {
                lemma_sqd_prefix_bounds(p1@, p2@, i as int);
                lemma_sqd_prefix_bounds(p1@, p2@, i as int + 1);
                assert((i as int + 1) * max_coord_sq() < u128::MAX) by (nonlinear_arith)
                    requires
                        i < usize::MAX,
                ;
            }
            let d: i64 = p1.coordinates[i] as i64 - p2.coordinates[i] as i64;
            let d_wide: i128 = d as i128;
            proof {
                lemma_sq_nonneg(d as int);
                lemma_sq_le(d as int, u32::MAX as int);
            }
            let term: i128 = d_wide * d_wide;
            sum = sum + (term as u128);
            i += 1;
        }
        proof {
            lemma_sq_dist_bound(p1@, p2@);
        }
        sum
    }

    /// Squared Euclidean distance, rejecting points of differing
    /// dimension with `DimensionMismatch` rather than truncating.
    pub fn get_distance(p1: &Point, p2: &Point) -> (r: Result<u128, ArtError>)
        ensures
            match r {
                Ok(d) => p1@.len() == p2@.len() && d == sq_dist(p1@, p2@),
                Err(e) => p1@.len() != p2@.len() && e == ArtError::DimensionMismatch,
            },
    {
        if p1.coordinates.len() != p2.coordinates.len() {
            Err(ArtError::DimensionMismatch)
        } else {
            Ok(Self::sq_distance(p1, p2))
        }
    }
}

} // verus!

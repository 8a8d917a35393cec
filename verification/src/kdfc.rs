//! The KD-tree-backed dispersion index: an incrementally built spatial
//! index over previously generated points, with two insertion policies.
//!
//! Both policies keep the routing invariant (left-descendants strictly
//! smaller on a node's split axis, right-descendants greater or equal) and
//! grow the tree by exactly one node per insertion; they differ only in how
//! the new node's split axis is chosen.
use vstd::prelude::*;
use crate::ArtError;
use crate::node::Node;
use crate::node::NodeV;
use crate::node::bnd_view;
use crate::node::node_v;
use crate::node::spec_insert_turn;
use crate::node::turn_leaf;
use crate::node::lemma_all_ge_insert;
use crate::node::lemma_all_lt_insert;
use crate::node::opt_pts;
use crate::point::Point;
use crate::point::copy_bounds;
use crate::point::domain_wf;
use crate::point::in_domain;

verus! {

pub struct KdfcArt {
    /// The root node; a placeholder without a point while the tree is empty.
    pub root: Node,
    /// Number of points inserted so far.
    pub size: usize,
    /// Batch size for candidate sampling in the generation drivers.
    pub candidate_num: i32,
    /// The n (low, high) interval pairs bounding the whole search space.
    pub input_domain: Vec<Vec<i32>>,
}

impl Default for KdfcArt {
    /// The same empty index `new` builds.
    fn default() -> (t: Self)
        ensures
            t.inv(),
            t.bnd_inv(),
            t.size == 0,
            t.candidate_num == 10,
            t.input_domain@.len() == 0,
    {
        Self::new()
    }
}

impl KdfcArt {
    /// The tree's dimension count: one split coordinate per domain interval.
    pub open spec fn dims(self) -> nat {
        self.input_domain@.len()
    }

    /// The coordinate vectors of all inserted points.
    pub open spec fn pts(self) -> Seq<Seq<i32>> {
        self.root.pts()
    }

    /// The index's invariant: a well-formed domain, a positive candidate
    /// batch size, `size` counting exactly the points reachable from the
    /// root, and — once non-empty — a structurally well-formed tree with
    /// correct depth bookkeeping.
    pub open spec fn inv(self) -> bool {
        &&& domain_wf(self.input_domain.deep_view())
        &&& self.candidate_num >= 1
        &&& self.size == self.pts().len()
        &&& (if self.size == 0 {
            self.root.point is None && self.root.left is None && self.root.right is None
        } else {
            self.root.wf_node(self.dims()) && self.root.depths_ok(1)
        })
    }

    /// The extra invariant of spread-maximizing insertion: every node of a
    /// non-empty tree carries the bounding box obtained by narrowing the
    /// domain along its ancestors' split axes.
    pub open spec fn bnd_inv(self) -> bool {
        self.size > 0 ==> self.root.bnd_ok(self.input_domain.deep_view())
    }

    /// An empty index with the default candidate batch size and an empty
    /// domain.
    pub fn new() -> (t: Self)
        ensures
            t.inv(),
            t.bnd_inv(),
            t.size == 0,
            t.candidate_num == 10,
            t.input_domain@.len() == 0,
    {
        KdfcArt {
            root: Node::new(),
            size: 0,
            candidate_num: 10,
            input_domain: Vec::new(),
        }
    }

    /// An empty index bound to the given domain; the root placeholder
    /// already carries the domain as its bounding box. Rejects a malformed
    /// domain (an interval that is not a pair, or with `low >= high`).
    pub fn with_bound(bound: &Vec<Vec<i32>>) -> (r: Result<Self, ArtError>)
        ensures
            match r {
                Ok(t) => {
                    &&& domain_wf(bound.deep_view())
                    &&& t.inv()
                    &&& t.bnd_inv()
                    &&& t.size == 0
                    &&& t.candidate_num == 10
                    &&& t.input_domain@.len() == bound@.len()
                    &&& t.input_domain.deep_view() =~= bound.deep_view()
                    &&& bnd_view(t.root) == Option::Some(t.input_domain.deep_view())
                },
                Err(e) => !domain_wf(bound.deep_view()) && e == ArtError::DomainMalformed,
            },
    {
        let n = bound.len();
        let mut i: usize = 0;
        while i < n
            invariant
                i <= n,
                n == bound@.len(),
                forall|j: int|
                    0 <= j < i ==> (#[trigger] bound@[j])@.len() == 2 && bound@[j]@[0]
                        < bound@[j]@[1],
            decreases n - i,
        {
            if bound[i].len() != 2 {
                proof {
                    crate::point::lemma_deep_view_index(*bound, i as int);
                }
                return Err(ArtError::DomainMalformed);
            }
            if bound[i][0] >= bound[i][1] {
                proof {
                    crate::point::lemma_deep_view_index(*bound, i as int);
                }
                return Err(ArtError::DomainMalformed);
            }
            i += 1;
        }
        proof {
            assert forall|j: int| 0 <= j < bound@.len() implies (#[trigger] bound.deep_view()[j]).len()
                == 2 && bound.deep_view()[j][0] < bound.deep_view()[j][1] by {
                crate::point::lemma_deep_view_index(*bound, j);
            }
        }
        let mut kda = Self::new();
        kda.input_domain = copy_bounds(bound);
        kda.root.boundary = Some(copy_bounds(bound));
        Ok(kda)
    }

    /// The split axis of a new node under spread-maximizing insertion:
    /// the axis maximizing the spread score over the node's bounding box
    /// (ties keep the lowest axis index; axis 0 when every score is zero,
    /// which happens only for a point on every axis's low edge). The score
    /// comparison is exact: numerators and denominators are cross-multiplied
    /// instead of divided.
    pub fn split_select(boundary: &Vec<Vec<i32>>, p: &Point) -> (s: usize)
        requires
            p@.len() >= 1,
            boundary.deep_view().len() == p@.len(),
            domain_wf(boundary.deep_view()),
            in_domain(p@, boundary.deep_view()),
        ensures
            s < p@.len(),
            s as int == spec_split_select(boundary.deep_view(), p@),
    {
        let ghost b = boundary.deep_view();
        let n = p.coordinates.len();
        let mut rate_num: i128 = 0;
        let mut rate_den: i128 = 1;
        let mut split: usize = 0;
        let mut i: usize = 0;
        while i < n
            invariant
                i <= n,
                n == p@.len(),
                n == boundary@.len(),
                b == boundary.deep_view(),
                b.len() == n,
                domain_wf(b),
                in_domain(p@, b),
                split < n,
                (rate_num as int, rate_den as int, split as int) == split_sel_rec(b, p@, i as int),
                1 <= rate_den <= u32::MAX,
                -3 * crate::point::max_coord_sq() <= rate_num <= 3 * crate::point::max_coord_sq(),
            decreases n - i,
        {
            proof {
                crate::point::lemma_deep_view_index(*boundary, i as int);
            }
            let lo = boundary[i][0];
            let hi = boundary[i][1];
            let len_i: i128 = hi as i128 - lo as i128;
            let lx1: i128 = hi as i128 - p.coordinates[i] as i128;
            let lx2: i128 = p.coordinates[i] as i128 - lo as i128;
            proof {
                lemma_abs_mul_le(len_i as int, len_i as int, u32::MAX as int, u32::MAX as int);
                lemma_abs_mul_le(lx1 as int, lx1 as int, u32::MAX as int, u32::MAX as int);
                lemma_abs_mul_le(lx2 as int, lx2 as int, u32::MAX as int, u32::MAX as int);
            }
            let num: i128 = len_i * len_i - lx1 * lx1 - lx2 * lx2;
            proof {
                assert(num as int == spread_num(b, p@, i as int));
                assert(len_i as int == spread_den(b, i as int));
                lemma_abs_mul_le(
                    rate_num as int,
                    len_i as int,
                    3 * crate::point::max_coord_sq(),
                    u32::MAX as int,
                );
                lemma_abs_mul_le(
                    num as int,
                    rate_den as int,
                    3 * crate::point::max_coord_sq(),
                    u32::MAX as int,
                );
                assert(3 * crate::point::max_coord_sq() * (u32::MAX as int) < i128::MAX)
                    by (nonlinear_arith);
            }
            if rate_num * len_i < num * rate_den {
                rate_num = num;
                rate_den = len_i;
                split = i;
            }
            i += 1;
        }
        split
    }

    /// Spread-maximizing insertion: the root's bounding box is the full
    /// domain; each new node's box is its parent's narrowed on the
    /// parent's split axis to the side the point fell on, and its split
    /// axis is chosen by `split_select` over that box. Adds exactly the
    /// given point, which must lie in the domain, and keeps both the
    /// routing and the boundary invariants.
    pub fn insert_point_by_strategy(&mut self, p: &Point)
        requires
            old(self).inv(),
            old(self).bnd_inv(),
            p.wf(),
            p@.len() == old(self).dims(),
            old(self).dims() >= 1,
            in_domain(p@, old(self).input_domain.deep_view()),
            old(self).size < usize::MAX,
        ensures
            final(self).inv(),
            final(self).bnd_inv(),
            final(self).size == old(self).size + 1,
            final(self).pts().to_multiset() =~= old(self).pts().to_multiset().insert(p@),
            final(self).input_domain == old(self).input_domain,
            final(self).candidate_num == old(self).candidate_num,
            final(self).dims() == old(self).dims(),
            old(self).size == 0 ==> node_v(final(self).root) == (NodeV {
                split: spec_split_select(old(self).input_domain.deep_view(), p@),
                deep: 1,
                pt: p@,
                bnd: Option::Some(old(self).input_domain.deep_view()),
                left: Option::None,
                right: Option::None,
            }),
            old(self).size > 0 ==> node_v(final(self).root) == spec_insert_strategy(
                node_v(old(self).root),
                p@,
                old(self).input_domain.deep_view(),
            ),
    {
        broadcast use vstd::seq_lib::group_to_multiset_ensures;

        if self.root.point.is_none() {
            proof {
                assert(self.size == 0);
            }
            let nb = copy_bounds(&self.input_domain);
            let ghost nbv = nb.deep_view();
            self.root.deep = 1;
            self.root.point = Some(p.duplicate());
            self.root.split = Self::split_select(&nb, p);
            self.root.boundary = Some(nb);
            self.size = self.size + 1;
            proof {
                self.root.lemma_pts_decompose();
                assert(self.root.bnd_ok(self.input_domain.deep_view()));
                assert(nbv == self.input_domain.deep_view());
                assert(self.root.pt() == p@);
                assert(node_v(self.root) == NodeV {
                    split: spec_split_select(self.input_domain.deep_view(), p@),
                    deep: 1,
                    pt: p@,
                    bnd: Option::Some(self.input_domain.deep_view()),
                    left: Option::None,
                    right: Option::None,
                });
            }
        } else {
            let dims = self.input_domain.len();
            proof {
                assert(self.size > 0);
            }
            insert_strategy_rec(
                &mut self.root,
                p,
                dims,
                Ghost(self.input_domain.deep_view()),
            );
            self.size = self.size + 1;
        }
    }

    /// Turn-based insertion: the root splits on axis 0 and each new node
    /// splits on its parent's axis plus one, modulo the dimension count.
    /// Adds exactly the given point and nothing else; boundary boxes are
    /// not tracked under this policy.
    pub fn insert_point_by_turn(&mut self, p: &Point)
        requires
            old(self).inv(),
            p.wf(),
            p@.len() == old(self).dims(),
            old(self).dims() >= 1,
            old(self).size < usize::MAX,
        ensures
            final(self).inv(),
            final(self).size == old(self).size + 1,
            final(self).pts().to_multiset() =~= old(self).pts().to_multiset().insert(p@),
            final(self).input_domain == old(self).input_domain,
            final(self).candidate_num == old(self).candidate_num,
            final(self).dims() == old(self).dims(),
            old(self).size == 0 ==> node_v(final(self).root) == (NodeV {
                split: 0,
                deep: 1,
                pt: p@,
                bnd: bnd_view(old(self).root),
                left: Option::None,
                right: Option::None,
            }),
            old(self).size > 0 ==> node_v(final(self).root) == spec_insert_turn(
                node_v(old(self).root),
                p@,
                old(self).dims() as int,
            ),
    {
        broadcast use vstd::seq_lib::group_to_multiset_ensures;

        if self.root.point.is_none() {
            proof {
                assert(self.size == 0);
            }
            self.root.point = Some(p.duplicate());
            self.root.split = 0;
            self.root.deep = 1;
            self.size = self.size + 1;
            proof {
                self.root.lemma_pts_decompose();
                assert(self.root.pt() == p@);
                assert(node_v(self.root) == NodeV {
                    split: 0,
                    deep: 1,
                    pt: p@,
                    bnd: bnd_view(old(self).root),
                    left: Option::None,
                    right: Option::None,
                });
            }
        } else {
            let dims = self.input_domain.len();
            proof {
                assert(self.size > 0);
            }
            insert_turn_rec(&mut self.root, p, dims);
            self.size = self.size + 1;
        }
    }
}

/// The numerator of axis `i`'s spread score. With `L` the boundary length
/// on axis `i`, `lx1 = high - p[i]` and `lx2 = p[i] - low`, the score is
/// `L * (1 - (lx1/L)^2 - (lx2/L)^2) == (L^2 - lx1^2 - lx2^2) / L`; the
/// numerator and denominator are compared exactly by cross-multiplication,
/// with no rounding.
pub open spec fn spread_num(b: Seq<Seq<i32>>, p: Seq<i32>, i: int) -> int {
    let len = b[i][1] - b[i][0];
    let lx1 = b[i][1] - p[i];
    let lx2 = p[i] - b[i][0];
    len * len - lx1 * lx1 - lx2 * lx2
}

/// The denominator of axis `i`'s spread score: the boundary length.
pub open spec fn spread_den(b: Seq<Seq<i32>>, i: int) -> int {
    b[i][1] - b[i][0]
}

/// The fold that scans axes `0..k` keeping (numerator, denominator, axis)
/// of the best score seen, starting from a zero score; an axis replaces
/// the best only when its score is strictly greater.
pub open spec fn split_sel_rec(b: Seq<Seq<i32>>, p: Seq<i32>, k: int) -> (int, int, int)
    decreases k,
{
    if k <= 0 {
        (0, 1, 0)
    } else {
        let prev = split_sel_rec(b, p, k - 1);
        if prev.0 * spread_den(b, k - 1) < spread_num(b, p, k - 1) * prev.1 {
            (spread_num(b, p, k - 1), spread_den(b, k - 1), k - 1)
        } else {
            prev
        }
    }
}

/// The split axis spread-maximizing insertion chooses for a point `p`
/// inside the box `b`: the first axis of the greatest spread score, or
/// axis 0 when every score is zero.
pub open spec fn spec_split_select(b: Seq<Seq<i32>>, p: Seq<i32>) -> int {
    split_sel_rec(b, p, p.len() as int).2
}

/// The leaf spread-maximizing insertion attaches: its box is the
/// parent's narrowed to the side the point fell on, and its split axis is
/// the spread-score argmax over that box.
pub open spec fn strategy_leaf(p: Seq<i32>, parent_deep: int, nb: Seq<Seq<i32>>) -> NodeV {
    NodeV {
        split: spec_split_select(nb, p),
        deep: parent_deep + 1,
        pt: p,
        bnd: Option::Some(nb),
        left: Option::None,
        right: Option::None,
    }
}

/// Spec mirror of spread-maximizing insertion into a subtree whose box is
/// `b`: descend by the strict-less-left / greater-or-equal-right rule,
/// narrowing the box on each node's split axis to the side taken, and
/// attach `strategy_leaf` in the one empty child slot the descent
/// reaches; every existing node keeps its point, split axis, depth, box
/// and other child unchanged — the tree is never restructured.
pub open spec fn spec_insert_strategy(n: NodeV, p: Seq<i32>, b: Seq<Seq<i32>>) -> NodeV
    decreases n,
{
    let v = n.pt[n.split];
    if p[n.split] < v {
        let nb = b.update(n.split, seq![b[n.split][0], v]);
        NodeV {
            left: match n.left {
                Option::None => Option::Some(Box::new(strategy_leaf(p, n.deep, nb))),
                Option::Some(l) => Option::Some(Box::new(spec_insert_strategy(*l, p, nb))),
            },
            ..n
        }
    } else {
        let nb = b.update(n.split, seq![v, b[n.split][1]]);
        NodeV {
            right: match n.right {
                Option::None => Option::Some(Box::new(strategy_leaf(p, n.deep, nb))),
                Option::Some(r) => Option::Some(Box::new(spec_insert_strategy(*r, p, nb))),
            },
            ..n
        }
    }
}

/// Under spread-maximizing insertion, every inserted point lies within
/// the domain: the root's box is the domain, and the boundary invariant
/// keeps each subtree's points within the subtree's box.
pub proof fn lemma_strategy_tree_points_in_domain(t: KdfcArt)
    requires
        t.inv(),
        t.bnd_inv(),
    ensures
        forall|j: int|
            0 <= j < t.pts().len() ==> in_domain(#[trigger] t.pts()[j], t.input_domain.deep_view()),
{
    if t.size > 0 {
        t.root.lemma_bnd_all_in_box(t.input_domain.deep_view(), t.dims());
    }
}

proof fn lemma_frac_le_lt_trans(a: int, b: int, c: int, d: int, e: int, f: int)
    requires
        b > 0,
        d > 0,
        f > 0,
        a * d <= c * b,
        c * f < e * d,
    ensures
        a * f < e * b,
{
    assert(a * f < e * b) by (nonlinear_arith)
        requires
            b > 0,
            d > 0,
            f > 0,
            a * d <= c * b,
            c * f < e * d,
    ;
}

proof fn lemma_split_sel_rec_max(b: Seq<Seq<i32>>, p: Seq<i32>, k: int)
    requires
        p.len() >= 1,
        b.len() == p.len(),
        domain_wf(b),
        in_domain(p, b),
        0 <= k <= p.len(),
    ensures
        ({
            let st = split_sel_rec(b, p, k);
            &&& st.1 > 0
            &&& 0 <= st.2 < (if k == 0 {
                1int
            } else {
                k
            })
            &&& (st == (0int, 1int, 0int) || (st.0 == spread_num(b, p, st.2) && st.1 == spread_den(
                b,
                st.2,
            )))
            &&& (forall|j: int|
                0 <= j < k ==> #[trigger] spread_num(b, p, j) * st.1 <= st.0 * spread_den(b, j))
            &&& (forall|j: int|
                0 <= j < st.2 ==> #[trigger] spread_num(b, p, j) * st.1 < st.0 * spread_den(b, j))
        }),
    decreases k,
{
    if k > 0 {
        lemma_split_sel_rec_max(b, p, k - 1);
        let prev = split_sel_rec(b, p, k - 1);
        let st = split_sel_rec(b, p, k);
        let nk = spread_num(b, p, k - 1);
        let dk = spread_den(b, k - 1);
        if prev.0 * dk < nk * prev.1 {
            assert(st == (nk, dk, k - 1));
            assert forall|j: int| 0 <= j < k - 1 implies spread_num(b, p, j) * st.1 < st.0
                * spread_den(b, j) by {
                lemma_frac_le_lt_trans(
                    spread_num(b, p, j),
                    spread_den(b, j),
                    prev.0,
                    prev.1,
                    nk,
                    dk,
                );
            }
        }
    }
}

/// What the chosen split axis maximizes: with scores compared exactly by
/// cross-multiplication over the (positive) boundary lengths, every
/// axis's spread score is at most the selected axis's, and every axis
/// before the selected one scores strictly less — the first maximum is
/// kept. (When the point sits on every axis's low edge all scores are
/// zero and axis 0 is selected.)
pub proof fn lemma_split_select_is_max(b: Seq<Seq<i32>>, p: Seq<i32>)
    requires
        p.len() >= 1,
        b.len() == p.len(),
        domain_wf(b),
        in_domain(p, b),
    ensures
        0 <= spec_split_select(b, p) < p.len(),
        forall|j: int|
            0 <= j < p.len() ==> #[trigger] spread_num(b, p, j) * spread_den(
                b,
                spec_split_select(b, p),
            ) <= spread_num(b, p, spec_split_select(b, p)) * spread_den(b, j),
        forall|j: int|
            0 <= j < spec_split_select(b, p) ==> #[trigger] spread_num(b, p, j) * spread_den(
                b,
                spec_split_select(b, p),
            ) < spread_num(b, p, spec_split_select(b, p)) * spread_den(b, j),
{
    let len = p.len() as int;
    lemma_split_sel_rec_max(b, p, len);
    let st = split_sel_rec(b, p, len);
    let sel = st.2;
    assert forall|j: int| 0 <= j < len implies spread_num(b, p, j) >= 0 by {
        let lx1 = b[j][1] - p[j];
        let lx2 = p[j] - b[j][0];
        assert((lx1 + lx2) * (lx1 + lx2) - lx1 * lx1 - lx2 * lx2 >= 0) by (nonlinear_arith)
            requires
                lx1 >= 0,
                lx2 >= 0,
        ;
    }
    if st == (0int, 1int, 0int) {
        assert forall|j: int| 0 <= j < len implies spread_num(b, p, j) * spread_den(b, sel)
            <= spread_num(b, p, sel) * spread_den(b, j) by {
            assert(spread_num(b, p, j) * 1 <= 0 * spread_den(b, j));
            assert(spread_num(b, p, j) == 0);
            assert(spread_num(b, p, j) * spread_den(b, sel) == 0) by (nonlinear_arith)
                requires
                    spread_num(b, p, j) == 0,
            ;
            assert(spread_num(b, p, sel) * spread_den(b, j) == 0) by (nonlinear_arith)
                requires
                    spread_num(b, p, sel) == 0,
            ;
        }
    }
}

proof fn lemma_abs_mul_le(a: int, b: int, ma: int, mb: int)
    requires
        -ma <= a <= ma,
        0 <= b <= mb,
        0 <= ma,
    ensures
        -(ma * mb) <= a * b <= ma * mb,
{
    assert(-(ma * mb) <= a * b <= ma * mb) by (nonlinear_arith)
        requires
            -ma <= a <= ma,
            0 <= b <= mb,
            0 <= ma,
    ;
}

/// The interval list `b` with the interval on `axis` narrowed to the low
/// side `[low, v)` (for a left child) or the high side `[v, high)` (for a
/// right child).
fn narrow_bounds(b: &Vec<Vec<i32>>, axis: usize, v: i32, left_side: bool) -> (r: Vec<Vec<i32>>)
    requires
        axis < b@.len(),
        forall|i: int| 0 <= i < b@.len() ==> (#[trigger] b.deep_view()[i]).len() == 2,
    ensures
        r@.len() == b@.len(),
        r.deep_view() =~= (if left_side {
            b.deep_view().update(axis as int, seq![b.deep_view()[axis as int][0], v])
        } else {
            b.deep_view().update(axis as int, seq![v, b.deep_view()[axis as int][1]])
        }),
{
    let n = b.len();
    let mut r: Vec<Vec<i32>> = Vec::new();
    let mut i: usize = 0;
    while i < n
        invariant
            i <= n,
            n == b@.len(),
            axis < n,
            forall|j: int| 0 <= j < n ==> (#[trigger] b.deep_view()[j]).len() == 2,
            r@.len() == i,
            forall|j: int|
                0 <= j < i && j != axis ==> (#[trigger] r@[j])@ =~= b.deep_view()[j],
            i > axis ==> r@[axis as int]@ =~= (if left_side {
                seq![b.deep_view()[axis as int][0], v]
            } else {
                seq![v, b.deep_view()[axis as int][1]]
            }),
        decreases n - i,
    {
        proof {
            crate::point::lemma_deep_view_index(*b, i as int);
        }
        let mut inner: Vec<i32> = Vec::new();
        if i == axis {
            if left_side {
                inner.push(b[i][0]);
                inner.push(v);
            } else {
                inner.push(v);
                inner.push(b[i][1]);
            }
        } else {
            inner.push(b[i][0]);
            inner.push(b[i][1]);
        }
        r.push(inner);
        i += 1;
    }
    proof {
        assert forall|j: int| 0 <= j < n implies #[trigger] r.deep_view()[j] =~= (if left_side {
            b.deep_view().update(axis as int, seq![b.deep_view()[axis as int][0], v])
        } else {
            b.deep_view().update(axis as int, seq![v, b.deep_view()[axis as int][1]])
        })[j] by {
            crate::point::lemma_deep_view_index(r, j);
        }
    }
    r
}

/// Recursive descent of spread-maximizing insertion: route by the same
/// strict less-than / greater-or-equal rule; the new leaf's bounding box is
/// the parent's narrowed on the parent's split axis to the side the point
/// fell on, and its split axis maximizes the spread score over that box.
fn insert_strategy_rec(node: &mut Node, p: &Point, dims: usize, Ghost(b): Ghost<Seq<Seq<i32>>>)
    requires
        old(node).wf_node(dims as nat),
        old(node).depths_ok(old(node).deep as nat),
        old(node).bnd_ok(b),
        in_domain(p@, b),
        p.wf(),
        p@.len() == dims,
        dims >= 1,
        old(node).deep + old(node).pts().len() <= usize::MAX,
    ensures
        final(node).wf_node(dims as nat),
        final(node).depths_ok(old(node).deep as nat),
        final(node).bnd_ok(b),
        final(node).pts().to_multiset() =~= old(node).pts().to_multiset().insert(p@),
        final(node).pts().len() == old(node).pts().len() + 1,
        node_v(*final(node)) == spec_insert_strategy(node_v(*old(node)), p@, b),
    decreases *old(node),
{
    broadcast use vstd::seq_lib::group_to_multiset_ensures;
    broadcast use vstd::multiset::group_multiset_axioms;

    proof {
        old(node).lemma_pts_decompose();
    }
    let split = node.split;
    let v = node.point.as_ref().unwrap().coordinates[split];
    if v > p.coordinates[split] {
        let ghost old_left = opt_pts(old(node).left);
        let ghost nbs = b.update(split as int, seq![b[split as int][0], v]);
        match node.left.take() {
            Option::None => {
                let nb = narrow_bounds(node.boundary.as_ref().unwrap(), split, v, true);
                proof {
                    assert(nb.deep_view() =~= nbs);
                    assert(in_domain(p@, nbs));
                    assert(domain_wf(nbs));
                }
                let mut leaf = Node::new();
                leaf.point = Some(p.duplicate());
                leaf.deep = node.deep + 1;
                leaf.split = KdfcArt::split_select(&nb, p);
                let ghost leaf_split = leaf.split as int;
                leaf.boundary = Some(nb);
                let ghost leafg = leaf;
                node.left = Some(Box::new(leaf));
                proof {
                    assert(leafg.pts() =~= seq![p@]);
                    assert(leafg.wf_node(dims as nat));
                    assert(leafg.depths_ok((old(node).deep + 1) as nat));
                    assert(leafg.bnd_ok(nbs));
                    assert(leafg.pts().to_multiset() =~= old_left.to_multiset().insert(p@));
                    assert(leafg.pt() == p@);
                    assert(leaf_split == spec_split_select(nbs, p@));
                    assert(bnd_view(leafg) == Option::Some(nbs));
                    assert(node_v(leafg) == strategy_leaf(p@, old(node).deep as int, nbs));
                }
            },
            Option::Some(mut l) => {
                proof {
                    assert(old(node).left == Option::Some(l));
                    assert((*l).depths_ok((old(node).deep + 1) as nat));
                    assert((*l).deep == old(node).deep + 1);
                    assert((*l).bnd_ok(nbs));
                    assert(in_domain(p@, nbs));
                }
                insert_strategy_rec(&mut *l, p, dims, Ghost(nbs));
                node.left = Some(l);
            },
        }
        proof {
            node.lemma_pts_decompose();
            assert(opt_pts(node.left).to_multiset() =~= old_left.to_multiset().insert(p@));
            assert(node.pts().to_multiset() =~= old(node).pts().to_multiset().insert(p@));
            lemma_all_lt_insert(
                opt_pts(node.left),
                old_left,
                p@,
                split as int,
                old(node).pt()[split as int],
            );
            assert(node.wf_node(dims as nat));
            assert(node.depths_ok(old(node).deep as nat));
            assert(node.bnd_ok(b));
            assert(node_v(*node) == spec_insert_strategy(node_v(*old(node)), p@, b));
        }
    } else {
        let ghost old_right = opt_pts(old(node).right);
        let ghost nbs = b.update(split as int, seq![v, b[split as int][1]]);
        match node.right.take() {
            Option::None => {
                let nb = narrow_bounds(node.boundary.as_ref().unwrap(), split, v, false);
                proof {
                    assert(nb.deep_view() =~= nbs);
                    assert(in_domain(p@, nbs));
                    assert(domain_wf(nbs));
                }
                let mut leaf = Node::new();
                leaf.point = Some(p.duplicate());
                leaf.deep = node.deep + 1;
                leaf.split = KdfcArt::split_select(&nb, p);
                let ghost leaf_split = leaf.split as int;
                leaf.boundary = Some(nb);
                let ghost leafg = leaf;
                node.right = Some(Box::new(leaf));
                proof {
                    assert(leafg.pts() =~= seq![p@]);
                    assert(leafg.wf_node(dims as nat));
                    assert(leafg.depths_ok((old(node).deep + 1) as nat));
                    assert(leafg.bnd_ok(nbs));
                    assert(leafg.pts().to_multiset() =~= old_right.to_multiset().insert(p@));
                    assert(leafg.pt() == p@);
                    assert(leaf_split == spec_split_select(nbs, p@));
                    assert(bnd_view(leafg) == Option::Some(nbs));
                    assert(node_v(leafg) == strategy_leaf(p@, old(node).deep as int, nbs));
                }
            },
            Option::Some(mut r) => {
                proof {
                    assert(old(node).right == Option::Some(r));
                    assert((*r).depths_ok((old(node).deep + 1) as nat));
                    assert((*r).deep == old(node).deep + 1);
                    assert((*r).bnd_ok(nbs));
                    assert(in_domain(p@, nbs));
                }
                insert_strategy_rec(&mut *r, p, dims, Ghost(nbs));
                node.right = Some(r);
            },
        }
        proof {
            node.lemma_pts_decompose();
            assert(opt_pts(node.right).to_multiset() =~= old_right.to_multiset().insert(p@));
            assert(node.pts().to_multiset() =~= old(node).pts().to_multiset().insert(p@));
            lemma_all_ge_insert(
                opt_pts(node.right),
                old_right,
                p@,
                split as int,
                old(node).pt()[split as int],
            );
            assert(node.wf_node(dims as nat));
            assert(node.depths_ok(old(node).deep as nat));
            assert(node.bnd_ok(b));
            assert(node_v(*node) == spec_insert_strategy(node_v(*old(node)), p@, b));
        }
    }
}

/// Recursive descent of turn-based insertion: route by the strict
/// less-than / greater-or-equal rule on each node's split axis and attach
/// the point as a new leaf whose split axis is the parent's plus one,
/// modulo `dims`.
fn insert_turn_rec(node: &mut Node, p: &Point, dims: usize)
    requires
        old(node).wf_node(dims as nat),
        old(node).depths_ok(old(node).deep as nat),
        p.wf(),
        p@.len() == dims,
        dims >= 1,
        old(node).deep + old(node).pts().len() <= usize::MAX,
    ensures
        final(node).wf_node(dims as nat),
        final(node).depths_ok(old(node).deep as nat),
        final(node).pts().to_multiset() =~= old(node).pts().to_multiset().insert(p@),
        final(node).pts().len() == old(node).pts().len() + 1,
        node_v(*final(node)) == spec_insert_turn(node_v(*old(node)), p@, dims as int),
    decreases *old(node),
{
    broadcast use vstd::seq_lib::group_to_multiset_ensures;
    broadcast use vstd::multiset::group_multiset_axioms;

    proof {
        old(node).lemma_pts_decompose();
    }
    let split = node.split;
    let v = node.point.as_ref().unwrap().coordinates[split];
    let ghost mid = seq![old(node).pt()];
    if v > p.coordinates[split] {
        let ghost old_left = opt_pts(old(node).left);
        match node.left.take() {
            Option::None => {
                let mut leaf = Node::new();
                leaf.point = Some(p.duplicate());
                leaf.split = if split == dims - 1 {
                    0
                } else {
                    split + 1
                };
                leaf.deep = node.deep + 1;
                let ghost leafg = leaf;
                node.left = Some(Box::new(leaf));
                proof {
                    assert(leafg.pts() =~= seq![p@]);
                    assert(leafg.wf_node(dims as nat));
                    assert(leafg.depths_ok((old(node).deep + 1) as nat));
                    assert(leafg.pts().to_multiset() =~= old_left.to_multiset().insert(p@));
                    assert(leafg.pt() == p@);
                    assert(node_v(leafg) == turn_leaf(
                        p@,
                        split as int,
                        old(node).deep as int,
                        dims as int,
                    ));
                }
            },
            Option::Some(mut l) => {
                proof {
                    assert(old(node).left == Option::Some(l));
                    assert((*l).depths_ok((old(node).deep + 1) as nat));
                    assert((*l).deep == old(node).deep + 1);
                }
                insert_turn_rec(&mut *l, p, dims);
                node.left = Some(l);
            },
        }
        proof {
            node.lemma_pts_decompose();
            assert(opt_pts(node.left).to_multiset() =~= old_left.to_multiset().insert(p@));
            assert(node.pts().to_multiset() =~= old(node).pts().to_multiset().insert(p@));
            lemma_all_lt_insert(
                opt_pts(node.left),
                old_left,
                p@,
                split as int,
                old(node).pt()[split as int],
            );
            assert(node.wf_node(dims as nat));
            assert(node.depths_ok(old(node).deep as nat));
            assert(node_v(*node) == spec_insert_turn(node_v(*old(node)), p@, dims as int));
        }
    } else {
        let ghost old_right = opt_pts(old(node).right);
        match node.right.take() {
            Option::None => {
                let mut leaf = Node::new();
                leaf.point = Some(p.duplicate());
                leaf.split = if split == dims - 1 {
                    0
                } else {
                    split + 1
                };
                leaf.deep = node.deep + 1;
                let ghost leafg = leaf;
                node.right = Some(Box::new(leaf));
                proof {
                    assert(leafg.pts() =~= seq![p@]);
                    assert(leafg.wf_node(dims as nat));
                    assert(leafg.depths_ok((old(node).deep + 1) as nat));
                    assert(leafg.pts().to_multiset() =~= old_right.to_multiset().insert(p@));
                    assert(leafg.pt() == p@);
                    assert(node_v(leafg) == turn_leaf(
                        p@,
                        split as int,
                        old(node).deep as int,
                        dims as int,
                    ));
                }
            },
            Option::Some(mut r) => {
                proof {
                    assert(old(node).right == Option::Some(r));
                    assert((*r).depths_ok((old(node).deep + 1) as nat));
                    assert((*r).deep == old(node).deep + 1);
                }
                insert_turn_rec(&mut *r, p, dims);
                node.right = Some(r);
            },
        }
        proof {
            node.lemma_pts_decompose();
            assert(opt_pts(node.right).to_multiset() =~= old_right.to_multiset().insert(p@));
            assert(node.pts().to_multiset() =~= old(node).pts().to_multiset().insert(p@));
            lemma_all_ge_insert(
                opt_pts(node.right),
                old_right,
                p@,
                split as int,
                old(node).pt()[split as int],
            );
            assert(node.wf_node(dims as nat));
            assert(node.depths_ok(old(node).deep as nat));
            assert(node_v(*node) == spec_insert_turn(node_v(*old(node)), p@, dims as int));
        }
    }
}

} // verus!
